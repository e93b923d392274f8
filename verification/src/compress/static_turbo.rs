//! Compression with the static codes, written while matching.

use crate::arith::{min_u32, min_usize};
use crate::compress::bitstream::OutputBitstream;
use crate::compress::block;
use crate::compress::block::{put_match, DeflateCodes};
use crate::compress::emit;
use crate::compress::fastest;
use crate::compress::fastest::{first_hash, Run};
use crate::compress::items;
use crate::compress::items::get_offset_slot;
use crate::compress::precode;
use crate::compress::progress;
use crate::compress::progress::{
    choose_max_block_end, dictionary_start, FAST_SOFT_MAX_BLOCK_LENGTH,
};
use crate::compress::stored;
use crate::compress::stored::write_uncompressed_blocks;
use crate::compress::writer;
use crate::compress::writer::{put_symbol, put_type};
use crate::error::CompressionError;
use crate::matchfinder::{HashMatchfinder, Memory, MATCHFINDER_INITVAL};
use crate::stop::Stop;
use crate::stream;
use vstd::arithmetic::power2::*;
use vstd::prelude::*;

verus! {

/// The bytes from `start` to `next` have been written, behind what `old` held.
///
/// The last block may take more room than storing would, if there is room for it.
pub open spec fn roomy_progress(
    old: OutputBitstream<'_>,
    new: OutputBitstream<'_>,
    h: Seq<u8>,
    start: int,
    next: int,
    last: bool,
) -> bool {
    let p = stream::align8(old.bits().len() as int);
    let q = stream::align8(new.bits().len() as int);
    &&& new.flushed()
    &&& new.buf@.len() == old.buf@.len()
    &&& old.overflow ==> new.overflow
    &&& !new.overflow ==> {
        &&& emit::extends(
            old.bits(),
            h.take(start),
            new.bits(),
            h.take(next),
            last && next == h.len(),
        )
        &&& next < h.len() ==> q <= p + progress::quota(next - start)
    }
    &&& !old.overflow && p + 8 * progress::bound(h.len() - start) <= 8 * old.buf@.len()
        ==> !new.overflow
}

/// The bytes that a block of `n` bytes may take with the static codes before it is stored.
pub open spec fn allowance(n: int) -> int {
    n + 5 * ((n + 65534) / 65535) + 1
}

/// What has been written, where the next block begins, and what the matchfinder knows there.
pub struct Stage {
    pub bits: Seq<bool>,
    pub next: int,
    pub tab: Seq<i16>,
    pub base: int,
}

/// What the matchfinder knows at `end` when a block that it has parsed as far as `run` is
/// stored: nothing, if the parse goes past the end.
pub open spec fn knows_behind<M: HashMatchfinder>(s1: Stage, run: Run, end: int) -> bool {
    if run.next > end {
        s1.base == end && s1.tab == Seq::new(M::table_size(), |k: int| MATCHFINDER_INITVAL)
    } else {
        s1.base == run.memory.base && s1.tab == run.memory.tab
    }
}

/// The block is written with the static codes.
pub open spec fn kept<M: HashMatchfinder>(
    s: Stage,
    s1: Stage,
    h: Seq<u8>,
    last: bool,
    nice: int,
) -> bool {
    let end = progress::max_block_end(s.next, h.len() as int, 65535);
    let start = fastest::block_start::<M>(s.tab, s.base, h, s.next, false);
    let run = fastest::whole_run::<M>(start, h, end, nice);
    let b = block::static_bits(h, s.next, run.its, last && end == h.len());
    &&& s1.bits == s.bits + b
    &&& (s.bits.len() + b.len()) as int / 8 - s.bits.len() as int / 8 <= allowance(end - s.next)
    &&& s1.next == run.next
    &&& s1.tab == run.memory.tab
    &&& s1.base == run.memory.base
}

/// The block is stored: with the static codes it would take too many bytes, or its first
/// items, as far as `run`, already take more than the `room` for all of the output.
pub open spec fn taken_back<M: HashMatchfinder>(
    s: Stage,
    s1: Stage,
    h: Seq<u8>,
    last: bool,
    room: int,
    nice: int,
    run: Run,
) -> bool {
    let end = progress::max_block_end(s.next, h.len() as int, 65535);
    let start = fastest::block_start::<M>(s.tab, s.base, h, s.next, false);
    let total = s.bits.len() + block::static_bits(
        h,
        s.next,
        run.its,
        last && end == h.len(),
    ).len();
    &&& s1.bits == stored::with_stored(
        s.bits,
        h.subrange(s.next, end),
        last && end == h.len(),
    )
    &&& s1.next == end
    &&& fastest::some_steps::<M>(start, h, nice, run)
    &&& knows_behind::<M>(s1, run, end)
    &&& {
        ||| total > 8 * room
        ||| run == fastest::whole_run::<M>(start, h, end, nice) && total / 8
            - s.bits.len() as int / 8 > allowance(end - s.next)
    }
}

/// One block is written, with the static codes or stored.
pub open spec fn next_stage<M: HashMatchfinder>(
    s: Stage,
    s1: Stage,
    h: Seq<u8>,
    last: bool,
    room: int,
    nice: int,
) -> bool {
    &&& s.next < s1.next
    &&& {
        ||| kept::<M>(s, s1, h, last, nice)
        ||| exists|run: Run| #[trigger] taken_back::<M>(s, s1, h, last, room, nice, run)
    }
}

/// `k` blocks are written, with the static codes or stored.
pub open spec fn stages<M: HashMatchfinder>(
    s0: Stage,
    s1: Stage,
    h: Seq<u8>,
    last: bool,
    room: int,
    nice: int,
    k: nat,
) -> bool
    decreases k,
{
    if k == 0 {
        s1 == s0
    } else {
        exists|s: Stage|
            {
                &&& stages::<M>(s0, s, h, last, room, nice, (k - 1) as nat)
                &&& #[trigger] next_stage::<M>(s, s1, h, last, room, nice)
            }
    }
}

/// The blocks between two places are written, with the static codes or stored.
#[verifier::opaque]
pub open spec fn static_between<M: HashMatchfinder>(
    s0: Stage,
    s1: Stage,
    h: Seq<u8>,
    last: bool,
    room: int,
    nice: int,
) -> bool {
    exists|k: nat| #[trigger] stages::<M>(s0, s1, h, last, room, nice, k)
}

/// What a whole run begins with.
pub open spec fn first_stage<M: HashMatchfinder>(
    b: Seq<bool>,
    h: Seq<u8>,
    start: int,
    nice: int,
) -> Stage {
    let c = fastest::setup_at::<M>(h, start, nice, false);
    Stage { bits: b, next: start, tab: c.tab, base: c.base }
}

/// The data from `start` on has been written behind `b0` in blocks with the static codes,
/// parsed as the matchfinder gives it; blocks that would take too many bytes that way, or
/// more than the `room` for all of the output, are stored.
pub open spec fn static_coded<M: HashMatchfinder>(
    b0: Seq<bool>,
    b1: Seq<bool>,
    h: Seq<u8>,
    start: int,
    last: bool,
    room: int,
    nice: int,
) -> bool {
    exists|s1: Stage|
        {
            &&& s1.bits == b1
            &&& s1.next == h.len()
            &&& #[trigger] static_between::<M>(
                first_stage::<M>(b0, h, start, nice),
                s1,
                h,
                last,
                room,
                nice,
            )
        }
}

/// Behind the first of the blocks, the next one takes more than the `room` for all of the
/// output even where it is stored.
#[verifier::opaque]
pub open spec fn static_spills<M: HashMatchfinder>(
    b0: Seq<bool>,
    h: Seq<u8>,
    start: int,
    last: bool,
    room: int,
    nice: int,
) -> bool {
    exists|s: Stage|
        {
            let end = progress::max_block_end(s.next, h.len() as int, 65535);
            &&& s.next < h.len()
            &&& #[trigger] static_between::<M>(
                first_stage::<M>(b0, h, start, nice),
                s,
                h,
                last,
                room,
                nice,
            )
            &&& block::too_long(
                stored::with_stored(s.bits, h.subrange(s.next, end), last && end == h.len()),
                room,
            )
        }
}

proof fn lemma_static_start<M: HashMatchfinder>(
    s: Stage,
    h: Seq<u8>,
    last: bool,
    room: int,
    nice: int,
)
    ensures
        static_between::<M>(s, s, h, last, room, nice),
{
    reveal(static_between);
    assert(stages::<M>(s, s, h, last, room, nice, 0));
}

/// One more block.
proof fn lemma_static_step<M: HashMatchfinder>(
    s0: Stage,
    s: Stage,
    s1: Stage,
    h: Seq<u8>,
    last: bool,
    room: int,
    nice: int,
)
    requires
        static_between::<M>(s0, s, h, last, room, nice),
        next_stage::<M>(s, s1, h, last, room, nice),
    ensures
        static_between::<M>(s0, s1, h, last, room, nice),
{
    reveal(static_between);
    let k = choose|k: nat| #[trigger] stages::<M>(s0, s, h, last, room, nice, k);
    assert((k + 1 - 1) as nat == k);
    assert(stages::<M>(s0, s1, h, last, room, nice, k + 1));
}

/// Write a block with the static codes: matches where the matchfinder finds one,
/// else literals. Ends at `max_block_end`, or where there is no more space.
fn emit_block<M: HashMatchfinder>(
    mf: &mut M,
    os: &mut OutputBitstream<'_>,
    input: &[u8],
    in_base_offset: &mut usize,
    block_begin: usize,
    max_block_end: usize,
    nice_match_length: u32,
    static_codes: &DeflateCodes,
    is_final: bool,
) -> (r: (usize, Ghost<Run>))
    requires
        old(os).flushed(),
        block_begin < max_block_end <= input@.len(),
        old(mf).wf(*old(in_base_offset) as int, block_begin as int),
        *old(in_base_offset) <= block_begin,
        static_codes.is_static(),
    ensures
        block_begin <= r.0 <= input@.len(),
        r.0 < max_block_end + 258,
        final(mf).wf(*final(in_base_offset) as int, r.0 as int),
        *final(in_base_offset) <= r.0,
        final(os).flushed(),
        final(os).keeps(*old(os)),
        final(os).buf@.len() == old(os).buf@.len(),
        final(final(os).buf)@ == final(old(os).buf)@,
        old(os).overflow ==> final(os).overflow,
        !final(os).overflow ==> r.0 >= max_block_end && emit::extends(
            old(os).bits(),
            input@.take(block_begin as int),
            final(os).bits(),
            input@.take(r.0 as int),
            is_final,
        ),
        ({
            let start = fastest::block_start::<M>(
                old(mf).table(),
                *old(in_base_offset) as int,
                input@,
                block_begin as int,
                false,
            );
            let run = r.1@;
            let s = block::static_bits(input@, block_begin as int, run.its, is_final);
            &&& fastest::some_steps::<M>(start, input@, nice_match_length as int, run)
            &&& run.next == r.0
            &&& run.memory.tab == final(mf).table()
            &&& run.memory.base == *final(in_base_offset)
            &&& !final(os).overflow ==> {
                &&& final(os).bits() == old(os).bits() + s
                &&& run == fastest::whole_run::<M>(
                    start,
                    input@,
                    max_block_end as int,
                    nice_match_length as int,
                )
            }
            &&& !old(os).overflow && final(os).overflow ==> old(os).bits().len() + s.len() > 8
                * old(os).buf@.len()
        }),
{
    let ghost h = input@;
    let ghost b = block_begin as int;
    let ghost sl = stream::static_litlen_lens();
    let ghost so = stream::static_offset_lens();
    let ghost o0 = *os;
    let ghost fin = final(os.buf)@;
    let in_end: usize = input.len();
    let mut in_next: usize = block_begin;
    put_type(os, is_final, 1);
    let ghost t = precode::type_bits(is_final, 1);
    let ghost o1 = *os;
    let ghost mut its: Seq<(int, int)> = Seq::empty();
    let ghost start = fastest::block_start::<M>(
        mf.table(),
        *in_base_offset as int,
        h,
        b,
        false,
    );
    let ghost nice = nice_match_length as int;
    let ghost mut n: nat = 0;
    let ghost mut matches: int = 0;
    let mut next_hash: u32 = first_hash::<M>(input, in_next);
    proof {
        writer::lemma_wrote_nothing(o1);
    }
    while in_next < max_block_end && !os.overflow
        invariant
            h == input@,
            in_end == h.len(),
            b == block_begin,
            sl == stream::static_litlen_lens(),
            so == stream::static_offset_lens(),
            block_begin <= in_next <= in_end,
            block_begin < max_block_end <= in_end,
            in_next < max_block_end + 258,
            mf.wf(*in_base_offset as int, in_next as int),
            *in_base_offset <= in_next,
            next_hash < pow2(M::order_of()),
            static_codes.is_static(),
            block::writes_with(*static_codes, sl, so),
            items::parse_ok(h, b, its),
            items::end_of(b, its) == in_next,
            nice == nice_match_length,
            0 <= matches <= in_next - block_begin,
            fastest::steps::<M>(start, h, nice, n) == (Run {
                its,
                matches,
                next: in_next as int,
                memory: Memory {
                    tab: mf.table(),
                    base: *in_base_offset as int,
                    hash: next_hash as int,
                },
            }),
            fastest::run_to::<M>(start, h, max_block_end as int, 1 + h.len() as int, nice)
                == fastest::run_to::<M>(
                fastest::steps::<M>(start, h, nice, n),
                h,
                max_block_end as int,
                1 + h.len() as int,
                nice,
            ),
            os.flushed(),
            writer::wrote(o1, *os, emit::parse_bits(h, b, its, sl, so)),
            final(os.buf)@ == fin,
        decreases in_end - in_next,
    {
        let max_len: u32 = min_usize(in_end - in_next, 258) as u32;
        let nice_len: u32 = min_u32(max_len, nice_match_length);
        let mut length: u32 = 0;
        let mut offset: u32 = 0;
        if max_len >= 5 {
            let r: (u32, u32) = mf.longest_match(
                input,
                in_base_offset,
                in_next,
                max_len,
                nice_len,
                &mut next_hash,
            );
            length = r.0;
            offset = r.1;
        } else {
            proof {
                mf.lemma_wf_later(*in_base_offset as int, in_next as int, in_next + 1);
            }
        }
        let ghost o2 = *os;
        let ghost done = emit::parse_bits(h, b, its, sl, so);
        if length > 0 {
            let slot: u32 = get_offset_slot(offset);
            proof {
                items::lemma_slots(length as int, offset as int);
            }
            put_match(
                os,
                static_codes,
                length,
                offset,
                slot as usize,
                Ghost(sl),
                Ghost(so),
            );
            proof {
                let it = (length as int, offset as int);
                assert(its.push(it).drop_last() =~= its);
                writer::lemma_wrote_trans(
                    o1,
                    o2,
                    *os,
                    done,
                    emit::match_bits(sl, so, length as int, offset as int),
                );
                its = its.push(it);
                matches = matches + 1;
            }
            mf.skip_bytes(input, in_base_offset, in_next + 1, length - 1, &mut next_hash);
            in_next = in_next + length as usize;
        } else {
            let lit: usize = input[in_next] as usize;
            put_symbol(
                os,
                &static_codes.codewords_litlen,
                &static_codes.lens_litlen,
                lit,
                Ghost(sl),
            );
            proof {
                let it = (1int, 0int);
                assert(its.push(it).drop_last() =~= its);
                writer::lemma_wrote_trans(
                    o1,
                    o2,
                    *os,
                    done,
                    emit::code_bits(sl, lit as int),
                );
                its = its.push(it);
            }
            in_next = in_next + 1;
        }
        proof {
            n = n + 1;
            assert((n - 1) as nat + 1 == n);
        }
    }
    let ghost o3 = *os;
    put_symbol(os, &static_codes.codewords_litlen, &static_codes.lens_litlen, 256, Ghost(sl));
    proof {
        let body = emit::parse_bits(h, b, its, sl, so);
        let eob = emit::code_bits(sl, 256);
        writer::lemma_wrote_trans(o1, o3, *os, body, eob);
        writer::lemma_wrote_trans(o0, o1, *os, t, body + eob);
        block::lemma_static_block(o0.bits(), h, b, its, is_final);
    }
    let ghost run = fastest::steps::<M>(start, h, nice, n);
    proof {
        reveal(fastest::some_steps);
        reveal(fastest::whole_run);
    }
    (in_next, Ghost(run))
}

/// A block that was written in place of storing it takes little more room.
proof fn lemma_roomy(p: int, pos: int, bitcount: int, q: int, pos1: int, d: int, n: int)
    requires
        0 <= bitcount <= 7,
        p == 8 * pos + bitcount,
        8 * pos1 <= q <= 8 * pos1 + 7,
        pos1 - pos <= 65535 + 5 + 1,
        0 <= d,
        65535 <= n,
    ensures
        stream::align8(q) <= stream::align8(p) + progress::quota(d + n) - progress::quota(d),
{
    assert(stream::align8(q) <= 8 * pos1 + 8);
    assert(stream::align8(p) >= 8 * pos);
    assert((d + n) / 5000 >= d / 5000 + 13);
}

/// Compress the input from `chunk_start` on with the static codes; what comes
/// before it may be matched.
///
/// Where a block would expand, what was written of it is taken back and the block
/// is stored.
#[verifier::spinoff_prover]
#[verifier::rlimit(60)]
pub fn compress_static<M: HashMatchfinder, S: Stop>(
    mf: &mut M,
    os: &mut OutputBitstream<'_>,
    input: &[u8],
    chunk_start: usize,
    force_nonfinal: bool,
    nice_match_length: u32,
    static_codes: &DeflateCodes,
    stop: &S,
) -> (r: Result<(), CompressionError>)
    requires
        fastest::valid(*old(mf)),
        old(os).flushed(),
        chunk_start < input@.len(),
        static_codes.is_static(),
    ensures
        fastest::valid(*final(mf)),
        final(os).flushed(),
        final(os).buf@.len() == old(os).buf@.len(),
        final(final(os).buf)@ == final(old(os).buf)@,
        r is Ok ==> roomy_progress(
            *old(os),
            *final(os),
            input@,
            chunk_start as int,
            input@.len() as int,
            !force_nonfinal,
        ),
        r is Ok && !final(os).overflow ==> static_coded::<M>(
            old(os).bits(),
            final(os).bits(),
            input@,
            chunk_start as int,
            !force_nonfinal,
            old(os).buf@.len() as int,
            nice_match_length as int,
        ),
        r is Ok && final(os).overflow && !old(os).overflow ==> static_spills::<M>(
            old(os).bits(),
            input@,
            chunk_start as int,
            !force_nonfinal,
            old(os).buf@.len() as int,
            nice_match_length as int,
        ),
        r matches Err(e) ==> e is Stopped && !stop.never_stops(),
{
    mf.init();
    let in_end: usize = input.len();
    let mut in_next: usize = chunk_start;
    let dict_start: usize = dictionary_start(chunk_start);
    let mut in_base_offset: usize = dict_start;
    let ghost o0 = *os;
    let ghost fin = final(os.buf)@;
    let ghost h = input@;
    if chunk_start > 0 && in_end - in_next >= 4 {
        let mut warmup_hash: u32 = first_hash::<M>(input, dict_start);
        mf.skip_bytes(
            input,
            &mut in_base_offset,
            dict_start,
            (chunk_start - dict_start) as u32,
            &mut warmup_hash,
        );
    }
    let ghost room = o0.buf@.len() as int;
    let ghost nice = nice_match_length as int;
    let ghost s0 = Stage {
        bits: o0.bits(),
        next: chunk_start as int,
        tab: mf.table(),
        base: in_base_offset as int,
    };
    proof {
        assert(s0 == first_stage::<M>(o0.bits(), h, chunk_start as int, nice));
        assert(mf.wf(in_base_offset as int, in_next as int));
        emit::lemma_extends_nothing(o0.bits(), h.take(chunk_start as int));
        lemma_static_start::<M>(s0, h, !force_nonfinal, room, nice);
    }
    while in_next < in_end && !os.overflow
        invariant
            h == input@,
            in_end == h.len(),
            chunk_start <= in_next <= in_end,
            mf.wf(in_base_offset as int, in_next as int),
            in_base_offset <= in_next,
            static_codes.is_static(),
            o0 == *old(os),
            fin == final(old(os).buf)@,
            final(os.buf)@ == fin,
            roomy_progress(o0, *os, h, chunk_start as int, in_next as int, !force_nonfinal),
            room == o0.buf@.len(),
            nice == nice_match_length,
            s0 == first_stage::<M>(o0.bits(), h, chunk_start as int, nice),
            os.overflow && !o0.overflow ==> static_spills::<M>(
                o0.bits(),
                h,
                chunk_start as int,
                !force_nonfinal,
                room,
                nice,
            ),
            !os.overflow ==> static_between::<M>(
                s0,
                Stage {
                    bits: os.bits(),
                    next: in_next as int,
                    tab: mf.table(),
                    base: in_base_offset as int,
                },
                h,
                !force_nonfinal,
                room,
                nice,
            ),
        decreases in_end - in_next,
    {
        match stop.check() {
            Ok(_) => {},
            Err(e) => {
                return Err(CompressionError::Stopped(e));
            },
        }
        let block_begin: usize = in_next;
        let max_block_end: usize = choose_max_block_end(
            in_next,
            in_end,
            FAST_SOFT_MAX_BLOCK_LENGTH,
        );
        let block_length: usize = max_block_end - block_begin;
        let saved_pos: usize = os.pos;
        let saved_bitbuf: u64 = os.bitbuf;
        let saved_bitcount: u32 = os.bitcount;
        let ghost o1 = *os;
        let ghost s1 = Stage {
            bits: os.bits(),
            next: in_next as int,
            tab: mf.table(),
            base: in_base_offset as int,
        };
        let ghost d = block_begin - chunk_start;
        let is_final: bool = !force_nonfinal && max_block_end >= in_end;
        let (block_end, Ghost(run)) = emit_block(
            mf,
            os,
            input,
            &mut in_base_offset,
            block_begin,
            max_block_end,
            nice_match_length,
            static_codes,
            is_final,
        );
        in_next = block_end;
        let ghost sb = block::static_bits(h, block_begin as int, run.its, is_final);
        proof {
            assert(o1.bits().len() == 8 * saved_pos + saved_bitcount);
            assert(o1.bits().len() as int / 8 == saved_pos);
            if !os.overflow {
                assert(os.bits().len() == 8 * os.pos + os.bitcount);
                assert((o1.bits().len() + sb.len()) as int / 8 == os.pos);
            }
        }
        let static_bytes: usize = os.pos - saved_pos;
        let uncomp_bytes: usize = block_length + 5 * ((block_length + 65534) / 65535) + 1;
        proof {
            assert(uncomp_bytes == allowance(block_length as int));
            if !os.overflow {
                assert((o1.bits().len() + sb.len()) as int / 8 - o1.bits().len() as int / 8
                    == static_bytes);
            }
            assert(is_final == (!force_nonfinal && max_block_end == h.len()));
        }
        if os.overflow || static_bytes > uncomp_bytes {
            os.pos = saved_pos;
            os.bitbuf = saved_bitbuf;
            os.bitcount = saved_bitcount;
            os.overflow = false;
            proof {
                assert(os.bits() == o1.bits());
                if in_next < max_block_end {
                    mf.lemma_wf_later(in_base_offset as int, in_next as int, max_block_end as int);
                }
            }
            if in_next > max_block_end {
                // The matchfinder has seen positions behind the block: forget them
                mf.init();
                in_base_offset = max_block_end;
            }
            in_next = max_block_end;
            write_uncompressed_blocks(os, input, block_begin, block_length, is_final);
            proof {
                let p = o1.bits().len() as int;
                stored::lemma_stored_end(p, block_length as int);
                progress::lemma_quota(d, block_length as int, in_end - max_block_end);
                if !os.overflow {
                    emit::lemma_extends_trans(
                        o0.bits(),
                        h.take(chunk_start as int),
                        o1.bits(),
                        h.take(block_begin as int),
                        os.bits(),
                        h.take(max_block_end as int),
                        is_final,
                    );
                    let s2 = Stage {
                        bits: os.bits(),
                        next: in_next as int,
                        tab: mf.table(),
                        base: in_base_offset as int,
                    };
                    assert(h.subrange(block_begin as int, max_block_end as int) == h.subrange(
                        block_begin as int,
                        block_begin + block_length,
                    ));
                    assert(taken_back::<M>(s1, s2, h, !force_nonfinal, room, nice, run));
                    lemma_static_step::<M>(s0, s1, s2, h, !force_nonfinal, room, nice);
                } else {
                    reveal(static_spills);
                    let data = h.subrange(block_begin as int, max_block_end as int);
                    stored::lemma_with_stored_len(o1.bits(), data, is_final);
                    assert(block::too_long(
                        stored::with_stored(o1.bits(), data, is_final),
                        room,
                    ));
                    assert(static_between::<M>(s0, s1, h, !force_nonfinal, room, nice));
                }
            }
        } else {
            proof {
                emit::lemma_extends_trans(
                    o0.bits(),
                    h.take(chunk_start as int),
                    o1.bits(),
                    h.take(block_begin as int),
                    os.bits(),
                    h.take(in_next as int),
                    is_final,
                );
                let s2 = Stage {
                    bits: os.bits(),
                    next: in_next as int,
                    tab: mf.table(),
                    base: in_base_offset as int,
                };
                assert(kept::<M>(s1, s2, h, !force_nonfinal, nice));
                lemma_static_step::<M>(s0, s1, s2, h, !force_nonfinal, room, nice);
                if in_next < in_end {
                    lemma_roomy(
                        o1.bits().len() as int,
                        saved_pos as int,
                        saved_bitcount as int,
                        os.bits().len() as int,
                        os.pos as int,
                        d,
                        in_next - block_begin,
                    );
                }
            }
        }
    }
    Ok(())
}

} // verus!
