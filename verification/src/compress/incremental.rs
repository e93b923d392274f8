//! Incremental compression: feed data piece by piece, or only estimate what the next
//! piece would cost.

use crate::bits;
use crate::codes;
use crate::compress::bitstream::OutputBitstream;
use crate::compress::block;
use crate::compress::block::{symbol_cost, DeflateCodes};
use crate::compress::chain_model;
use crate::compress::chains;
use crate::compress::chains::{Cursor, Lookahead};
use crate::compress::compressor;
use crate::compress::compressor::Compressor;
use crate::compress::emit;
use crate::compress::fastest;
use crate::compress::items;
use crate::compress::level::InternalStrategy;
use crate::compress::pack;
use crate::compress::pack::finish_bytes;
use crate::compress::params::calculate_min_match_len;
use crate::compress::progress;
use crate::compress::progress::{
    choose_max_block_end, FAST_SEQ_STORE_LENGTH, INCREMENTAL_SOFT_MAX_BLOCK_LENGTH,
};
use crate::compress::sequences;
use crate::compress::stored;
use crate::compress::stored::put_stored;
use crate::error::CompressionError;
use crate::matchfinder::hc;
use crate::matchfinder::ht::HtMatchfinder;
use crate::matchfinder::{HashMatchfinder, MATCHFINDER_INITVAL};
use crate::stop::Stop;
use crate::stream;
use vstd::prelude::*;

verus! {

/// The strategies that keep their state between calls.
pub open spec fn incremental_strategy(s: InternalStrategy) -> bool {
    s == InternalStrategy::HtGreedy || s == InternalStrategy::Greedy || s == InternalStrategy::Lazy
        || s == InternalStrategy::Lazy2
}

/// What the next piece begins with: the table as it is, or an empty one for the first piece.
pub open spec fn ht_setup(c: Compressor) -> fastest::Setup {
    fastest::Setup {
        tab: if c.incremental_pos == 0 {
            Seq::new(65536, |k: int| MATCHFINDER_INITVAL)
        } else {
            c.ht_mf->0.table()
        },
        base: if c.incremental_pos == 0 {
            0
        } else {
            c.incremental_base_offset as int
        },
        start: c.incremental_pos as int,
        soft_max_len: 4185000,
        nice: c.params.nice_match_length as int,
        blind: false,
    }
}

/// What the next piece begins with: the tables as they are, or empty ones for the first
/// piece.
pub open spec fn hc_setup(c: Compressor, look: Lookahead) -> chain_model::Setup {
    let fresh = chain_model::fresh_place(
        c.incremental_pos as int,
        c.params.nice_match_length as int,
    );
    chain_model::Setup {
        place: if c.incremental_pos == 0 {
            fresh
        } else {
            chain_model::Place {
                tabs: c.hc_mf->0.tabs(c.incremental_base_offset as int),
                ..fresh
            }
        },
        sp: c.params,
        look,
        soft_max_len: 4185000,
        split: false,
    }
}

/// A place behind all of the data, with the tables of the compressor.
pub open spec fn hc_end(d: Compressor, h: Seq<u8>, p: chain_model::Place) -> bool {
    p.next == h.len() && p.tabs == d.hc_mf->0.tabs(d.incremental_base_offset as int)
}

/// How matches are chosen in incremental compression: with a look at one more position at
/// most.
pub open spec fn incremental_look(strategy: InternalStrategy) -> Lookahead {
    if strategy == InternalStrategy::Greedy {
        Lookahead::Greedy
    } else {
        Lookahead::Lazy
    }
}

/// The compressor `c` has written the rest of the data behind the bits `b0`, block by block
/// as its matchfinder gives them, and has become `d`; its codes are those of the last block.
pub open spec fn moved_on(
    c: Compressor,
    d: Compressor,
    h: Seq<u8>,
    b0: Seq<bool>,
    b1: Seq<bool>,
    last: bool,
) -> bool {
    if c.level.strategy == InternalStrategy::HtGreedy {
        &&& fastest::written_to::<HtMatchfinder>(
            ht_setup(c),
            h,
            b0,
            b1,
            last,
            h.len() as int,
            d.ht_mf->0.table(),
            d.incremental_base_offset as int,
        )
        &&& fastest::last_codes::<HtMatchfinder>(
            ht_setup(c),
            h,
            b0,
            b1,
            last,
            h.len() as int,
            d.codes.lens_litlen@,
            d.codes.lens_offset@,
        )
    } else {
        &&& exists|p: chain_model::Place|
            {
                &&& #[trigger] chain_model::written_to(
                    hc_setup(c, incremental_look(c.level.strategy)),
                    h,
                    b0,
                    b1,
                    last,
                    p,
                )
                &&& hc_end(d, h, p)
            }
        &&& chain_model::last_codes(
            hc_setup(c, incremental_look(c.level.strategy)),
            h,
            b0,
            b1,
            last,
            h.len() as int,
            d.codes.lens_litlen@,
            d.codes.lens_offset@,
        )
    }
}

/// All positions have been forgotten.
pub open spec fn forgotten(d: Compressor) -> bool {
    &&& d.incremental_base_offset == d.incremental_pos
    &&& d.ht_mf is Some ==> d.ht_mf->0.table() == Seq::new(65536, |k: int| MATCHFINDER_INITVAL)
    &&& d.hc_mf is Some ==> forall|b: int| #[trigger] d.hc_mf->0.tabs(b) == hc::fresh_tabs(b)
}

/// The bytes hold what the compressor `c` has written of the rest of the data when it has
/// become `d`, filled up to a whole byte.
pub open spec fn holds_piece(
    c: Compressor,
    d: Compressor,
    data: Seq<u8>,
    h: Seq<u8>,
    last: bool,
) -> bool {
    exists|b: Seq<bool>|
        {
            &&& #[trigger] moved_on(c, d, h, Seq::empty(), b, last)
            &&& bits::to_bits(data) == pack::padded(b)
        }
}

/// The blocks that the compressor makes of the rest of the data, or the first of them, take
/// with the bits `b0` before them more than `room` bytes.
#[verifier::opaque]
pub open spec fn piece_spills(
    c: Compressor,
    h: Seq<u8>,
    b0: Seq<bool>,
    last: bool,
    room: int,
) -> bool {
    if c.level.strategy == InternalStrategy::HtGreedy {
        fastest::spills::<HtMatchfinder>(ht_setup(c), h, b0, last, room)
    } else {
        chain_model::spills(hc_setup(c, incremental_look(c.level.strategy)), h, b0, last, room)
    }
}

/// Where all of the blocks do not fit, the first of them do not.
proof fn lemma_piece_spills(
    c: Compressor,
    d: Compressor,
    h: Seq<u8>,
    b0: Seq<bool>,
    b1: Seq<bool>,
    last: bool,
    room: int,
)
    requires
        moved_on(c, d, h, b0, b1, last),
        block::too_long(b1, room),
    ensures
        piece_spills(c, h, b0, last, room),
{
    reveal(piece_spills);
    reveal(fastest::spills);
    reveal(chain_model::spills);
    reveal(fastest::written_to);
    reveal(chain_model::written_to);
}

/// What a call returns that writes the rest of the data into an output of `room` bytes, and
/// the bytes that it writes: those of the piece, if the strategy is supported and they fit.
/// If they do not, the compressor knows no position any more.
pub open spec fn piece_result(
    c: Compressor,
    d: Compressor,
    h: Seq<u8>,
    last: bool,
    room: int,
    r: Result<usize, CompressionError>,
    data: Seq<u8>,
) -> bool {
    &&& d.level == c.level
    &&& match r {
        Ok(n) => {
            &&& incremental_strategy(c.level.strategy)
            &&& data.len() == n
            &&& n <= room
            &&& d.incremental_pos == h.len()
            &&& c.incremental_pos == h.len() ==> d == c
            &&& c.incremental_pos < h.len() ==> holds_piece(c, d, data, h, last)
            &&& c.incremental_pos == h.len() ==> bits::to_bits(data) == stored::with_stored(
                Seq::empty(),
                Seq::empty(),
                true,
            )
        },
        Err(CompressionError::InsufficientSpace) => {
            &&& d.incremental_pos == c.incremental_pos
            &&& if !incremental_strategy(c.level.strategy) {
                d == c
            } else if c.incremental_pos < h.len() {
                piece_spills(c, h, Seq::empty(), last, room) && forgotten(d)
            } else {
                room < 5
            }
        },
        Err(CompressionError::Stopped(_)) => incremental_strategy(c.level.strategy),
    }
}

/// The compressor `c` has passed over the rest of the data, block by block as its
/// matchfinder gives them, and has become `d`; the symbols of the blocks take `cost` bits
/// with codes of these lengths. The least length of a match is the same in all of them.
pub open spec fn passed_at(
    c: Compressor,
    d: Compressor,
    h: Seq<u8>,
    ll: Seq<u8>,
    ol: Seq<u8>,
    cost: int,
) -> bool {
    if c.level.strategy == InternalStrategy::HtGreedy {
        exists|k: nat|
            {
                let run = fastest::after_blocks::<HtMatchfinder>(ht_setup(c), h, k);
                &&& #[trigger] fastest::blocks_cost::<HtMatchfinder>(ht_setup(c), h, ll, ol, k)
                    == cost
                &&& run.next == h.len()
                &&& run.memory.tab == d.ht_mf->0.table()
                &&& run.memory.base == d.incremental_base_offset
                &&& forall|i: nat|
                    i < k ==> (#[trigger] fastest::after_blocks::<HtMatchfinder>(
                        ht_setup(c),
                        h,
                        i,
                    )).next < h.len()
            }
    } else {
        let setup = hc_setup(c, incremental_look(c.level.strategy));
        exists|k: nat|
            {
                &&& #[trigger] chain_model::pass_cost(setup, h, ll, ol, k) == cost
                &&& hc_end(d, h, chain_model::after_passes(setup, h, k).place)
                &&& forall|i: nat|
                    i < k ==> (#[trigger] chain_model::after_passes(setup, h, i)).place.next < h.len()
            }
    }
}

/// The bits that the data from `base` to `end` takes in some parse.
pub open spec fn is_cost_of(
    h: Seq<u8>,
    base: int,
    end: int,
    ll: Seq<u8>,
    ol: Seq<u8>,
    cost: int,
) -> bool {
    exists|its: Seq<(int, int)>| #[trigger]
        items::parse_ok(h, base, its) && items::end_of(base, its) == end && items::cost(
            h,
            base,
            its,
            ll,
            ol,
        ) == cost
}

/// No data takes no bits.
proof fn lemma_cost_start(h: Seq<u8>, base: int, ll: Seq<u8>, ol: Seq<u8>)
    ensures
        is_cost_of(h, base, base, ll, ol, 0),
{
    assert(items::parse_ok(h, base, Seq::<(int, int)>::empty()));
}

/// One more block of a parse.
proof fn lemma_cost_block(
    h: Seq<u8>,
    base: int,
    mid: int,
    its: Seq<(int, int)>,
    codes: DeflateCodes,
    cost: int,
)
    requires
        0 <= base <= mid <= h.len(),
        is_cost_of(h, base, mid, codes.lens_litlen@, codes.lens_offset@, cost),
        items::parse_ok(h, mid, its),
        codes.bounded(),
    ensures
        is_cost_of(
            h,
            base,
            items::end_of(mid, its),
            codes.lens_litlen@,
            codes.lens_offset@,
            cost + items::cost(h, mid, its, codes.lens_litlen@, codes.lens_offset@),
        ),
        0 <= cost,
        0 <= items::cost(h, mid, its, codes.lens_litlen@, codes.lens_offset@),
        cost + items::cost(h, mid, its, codes.lens_litlen@, codes.lens_offset@) <= 16 * (
        items::end_of(mid, its) - base),
{
    let ll = codes.lens_litlen@;
    let ol = codes.lens_offset@;
    let a = choose|a: Seq<(int, int)>| #[trigger]
        items::parse_ok(h, base, a) && items::end_of(base, a) == mid && items::cost(
            h,
            base,
            a,
            ll,
            ol,
        ) == cost;
    items::lemma_parse_concat(h, base, a, its, ll, ol);
    items::lemma_cost_bound(h, base, a, ll, ol);
    items::lemma_cost_bound(h, mid, its, ll, ol);
    assert(items::parse_ok(h, base, a + its));
}

/// Write an empty block that is marked as the last one.
fn put_last_block(os: &mut OutputBitstream<'_>, input: &[u8])
    requires
        old(os).flushed(),
    ensures
        final(os).flushed(),
        final(final(os).buf)@ == final(old(os).buf)@,
        progress::progress(
            *old(os),
            *final(os),
            input@,
            input@.len() as int,
            input@.len() as int,
            true,
        ),
        !final(os).overflow ==> final(os).bits() == stored::with_stored(
            old(os).bits(),
            Seq::empty(),
            true,
        ),
        final(os).overflow && !old(os).overflow ==> stream::align8(
            old(os).bits().len() as int,
        ) + 40 > 8 * old(os).buf@.len(),
{
    let ghost o0 = *os;
    let ghost h = input@;
    put_stored(os, input, input.len(), 0, true);
    proof {
        let n = h.len() as int;
        let p = o0.bits().len() as int;
        assert(h.subrange(n, n + 0) =~= Seq::empty());
        stored::lemma_stored_bits_len(p, h.subrange(n, n + 0), true);
        stored::lemma_stored_block(o0.bits(), h, n, 0, true);
    }
}

impl Compressor {
    /// Forget all positions, and go on from `pos`.
    fn forget(&mut self, pos: usize)
        requires
            old(self).wf(),
        ensures
            final(self).wf(),
            final(self).same_setup(*old(self)),
            final(self).codes == old(self).codes,
            final(self).incremental_pos == pos,
            forgotten(*final(self)),
            final(self).ht_mf is Some ==> final(self).ht_mf->0.table() == Seq::new(
                65536,
                |k: int| MATCHFINDER_INITVAL,
            ),
            final(self).hc_mf is Some ==> forall|b: int| #[trigger]
                final(self).hc_mf->0.tabs(b) == hc::fresh_tabs(b),
    {
        match &mut self.ht_mf {
            Some(mf) => {
                assert(mf.wf(self.incremental_base_offset as int, self.incremental_pos as int));
                mf.init();
            },
            None => {},
        }
        match &mut self.hc_mf {
            Some(mf) => {
                assert(mf.wf(self.incremental_base_offset as int, self.incremental_pos as int));
                mf.init();
            },
            None => {},
        }
        self.incremental_pos = pos;
        self.incremental_base_offset = pos;
    }

    /// Reset incremental state so that the next call starts fresh.
    pub fn incremental_reset(&mut self)
        requires
            old(self).wf(),
        ensures
            final(self).wf(),
            final(self).same_setup(*old(self)),
            final(self).codes == old(self).codes,
            final(self).incremental_pos == 0,
            final(self).incremental_base_offset == 0,
            final(self).ht_mf is Some ==> final(self).ht_mf->0.table() == Seq::new(
                65536,
                |k: int| MATCHFINDER_INITVAL,
            ),
            final(self).hc_mf is Some ==> forall|b: int| #[trigger]
                final(self).hc_mf->0.tabs(b) == hc::fresh_tabs(b),
    {
        self.forget(0);
    }

    /// Returns the current incremental cursor position.
    pub fn incremental_pos(&self) -> (r: usize)
        ensures
            r == self.incremental_pos,
    {
        self.incremental_pos
    }

    /// Incremental compression using the hash table matchfinder.
    fn compress_incremental_ht<S: Stop>(
        &mut self,
        os: &mut OutputBitstream<'_>,
        input: &[u8],
        is_final: bool,
        stop: &S,
    ) -> (r: Result<(), CompressionError>)
        requires
            old(self).wf(),
            old(self).ht_mf is Some,
            old(os).flushed(),
            old(self).incremental_pos <= input@.len(),
            old(self).incremental_pos < input@.len() || is_final,
        ensures
            final(self).wf(),
            final(self).same_setup(*old(self)),
            final(os).flushed(),
            final(os).buf@.len() == old(os).buf@.len(),
            final(final(os).buf)@ == final(old(os).buf)@,
            r is Ok ==> progress::progress(
                *old(os),
                *final(os),
                input@,
                old(self).incremental_pos as int,
                input@.len() as int,
                is_final,
            ),
            old(self).incremental_pos < input@.len() && r is Ok && !final(os).overflow
                ==> progress::coded(
                old(os).bits(),
                final(os).bits(),
                input@,
                old(self).incremental_pos as int,
                input@.len() as int,
                is_final,
            ),
            old(self).incremental_pos < input@.len() && r is Ok && !final(os).overflow ==> moved_on(
                *old(self),
                *final(self),
                input@,
                old(os).bits(),
                final(os).bits(),
                is_final,
            ),
            old(self).incremental_pos == input@.len() ==> r is Ok && (!final(os).overflow
                ==> final(os).bits() == stored::with_stored(old(os).bits(), Seq::empty(), true)),
            final(self).incremental_pos == if r is Ok && !final(os).overflow {
                input@.len() as usize
            } else {
                old(self).incremental_pos
            },
            old(self).incremental_pos < input@.len() && r is Ok && final(os).overflow
                && !old(os).overflow ==> piece_spills(
                *old(self),
                input@,
                old(os).bits(),
                is_final,
                old(os).buf@.len() as int,
            ),
            old(self).incremental_pos == input@.len() && final(os).overflow && !old(os).overflow
                ==> stream::align8(old(os).bits().len() as int) + 40 > 8 * old(os).buf@.len(),
            old(self).incremental_pos < input@.len() && r is Ok && final(os).overflow ==> forgotten(
                *final(self),
            ),
            old(self).incremental_pos == input@.len() ==> *final(self) == *old(self),
            r matches Err(e) ==> e is Stopped && !stop.never_stops(),
    {
        proof {
            reveal(piece_spills);
        }
        let start: usize = self.incremental_pos;
        if start == input.len() {
            put_last_block(os, input);
            return Ok(());
        }
        let mut base: usize = self.incremental_base_offset;
        let r: Result<(), CompressionError> = match &mut self.ht_mf {
            Some(mf) => {
                if start == 0 {
                    assert(mf.wf(base as int, start as int));
                    mf.init();
                    base = 0;
                }
                let r: Result<(), CompressionError> = fastest::compress_blocks(
                    mf,
                    &mut base,
                    os,
                    input,
                    start,
                    !is_final,
                    self.params.nice_match_length,
                    false,
                    INCREMENTAL_SOFT_MAX_BLOCK_LENGTH,
                    &mut self.parse.freqs,
                    &mut self.codes,
                    &self.static_codes,
                    &mut self.parse.seqs,
                    stop,
                );
                if r.is_err() || os.overflow {
                    mf.init();
                }
                r
            },
            None => Ok(()),
        };
        if r.is_err() || os.overflow {
            self.incremental_base_offset = start;
        } else {
            self.incremental_base_offset = base;
            self.incremental_pos = input.len();
        }
        r
    }

    /// Incremental compression using the hash chains matchfinder.
    fn compress_incremental_hc<S: Stop>(
        &mut self,
        os: &mut OutputBitstream<'_>,
        input: &[u8],
        is_final: bool,
        look: Lookahead,
        stop: &S,
    ) -> (r: Result<(), CompressionError>)
        requires
            old(self).wf(),
            old(self).hc_mf is Some,
            old(self).params.max_search_depth >= 4,
            look == incremental_look(old(self).level.strategy),
            old(os).flushed(),
            old(self).incremental_pos <= input@.len(),
            old(self).incremental_pos < input@.len() || is_final,
        ensures
            final(self).wf(),
            final(self).same_setup(*old(self)),
            final(os).flushed(),
            final(os).buf@.len() == old(os).buf@.len(),
            final(final(os).buf)@ == final(old(os).buf)@,
            r is Ok ==> progress::progress(
                *old(os),
                *final(os),
                input@,
                old(self).incremental_pos as int,
                input@.len() as int,
                is_final,
            ),
            old(self).incremental_pos < input@.len() && r is Ok && !final(os).overflow
                ==> progress::coded(
                old(os).bits(),
                final(os).bits(),
                input@,
                old(self).incremental_pos as int,
                input@.len() as int,
                is_final,
            ),
            old(self).incremental_pos < input@.len() && r is Ok && !final(os).overflow ==> moved_on(
                *old(self),
                *final(self),
                input@,
                old(os).bits(),
                final(os).bits(),
                is_final,
            ),
            old(self).incremental_pos == input@.len() ==> r is Ok && (!final(os).overflow
                ==> final(os).bits() == stored::with_stored(old(os).bits(), Seq::empty(), true)),
            final(self).incremental_pos == if r is Ok && !final(os).overflow {
                input@.len() as usize
            } else {
                old(self).incremental_pos
            },
            old(self).incremental_pos < input@.len() && r is Ok && final(os).overflow
                && !old(os).overflow ==> piece_spills(
                *old(self),
                input@,
                old(os).bits(),
                is_final,
                old(os).buf@.len() as int,
            ),
            old(self).incremental_pos == input@.len() && final(os).overflow && !old(os).overflow
                ==> stream::align8(old(os).bits().len() as int) + 40 > 8 * old(os).buf@.len(),
            old(self).incremental_pos < input@.len() && r is Ok && final(os).overflow ==> forgotten(
                *final(self),
            ),
            old(self).incremental_pos == input@.len() ==> *final(self) == *old(self),
            r matches Err(e) ==> e is Stopped && !stop.never_stops(),
    {
        proof {
            reveal(piece_spills);
        }
        let start: usize = self.incremental_pos;
        if start == input.len() {
            put_last_block(os, input);
            return Ok(());
        }
        let mut base: usize = self.incremental_base_offset;
        let r: Result<(), CompressionError> = match &mut self.hc_mf {
            Some(mf) => {
                if start == 0 {
                    assert(mf.wf(base as int, start as int));
                    mf.init();
                    base = 0;
                }
                let mut cur: Cursor = Cursor::new(start, base, self.params.nice_match_length);
                let r: Result<(), CompressionError> = chains::compress_blocks(
                    mf,
                    &mut cur,
                    os,
                    input,
                    !is_final,
                    &self.params,
                    look,
                    INCREMENTAL_SOFT_MAX_BLOCK_LENGTH,
                    false,
                    &mut self.parse,
                    &mut self.codes,
                    &self.static_codes,
                    stop,
                );
                base = cur.base;
                if r.is_err() || os.overflow {
                    assert(mf.wf(cur.base as int, cur.next as int));
                    mf.init();
                }
                r
            },
            None => Ok(()),
        };
        if r.is_err() || os.overflow {
            self.incremental_base_offset = start;
        } else {
            self.incremental_base_offset = base;
            self.incremental_pos = input.len();
        }
        r
    }

    /// The codes that cost estimates go by: those of the last block, or the static
    /// ones if there was none.
    pub open spec fn estimate_codes(&self) -> DeflateCodes {
        if self.codes.lens_litlen@[256] > 0 {
            self.codes
        } else {
            self.static_codes
        }
    }

    /// Feed data incrementally and get compressed DEFLATE output.
    ///
    /// Each call passes the full accumulated input (all prior data plus new data).
    /// The compressor remembers how far it has compressed and only compresses the
    /// new portion; matches may reach back into what came before.
    ///
    /// `is_final`: set on the last call to mark the last block as such; if nothing is
    /// left to compress then, an empty block is written for that.
    ///
    /// Only the HtGreedy, Greedy, Lazy and Lazy2 strategies are supported; with any
    /// other, `InsufficientSpace` is returned.
    ///
    /// Returns the number of bytes written to `output`.
    pub fn deflate_compress_incremental<S: Stop>(
        &mut self,
        data: &[u8],
        output: &mut [u8],
        is_final: bool,
        stop: S,
    ) -> (r: Result<usize, CompressionError>)
        requires
            old(self).wf(),
            old(self).incremental_pos <= data@.len(),
        ensures
            final(self).wf(),
            final(self).same_setup(*old(self)),
            final(output)@.len() == old(output)@.len(),
            old(self).incremental_pos == data@.len() && !is_final ==> r == Ok::<
                usize,
                CompressionError,
            >(0) && *final(self) == *old(self),
            (old(self).incremental_pos < data@.len() || is_final) && !incremental_strategy(
                old(self).level.strategy,
            ) ==> r == Err::<usize, CompressionError>(CompressionError::InsufficientSpace),
            old(self).incremental_pos < data@.len() || is_final ==> (r matches Ok(n) ==> {
                &&& n <= old(output)@.len()
                &&& n <= progress::bound(data@.len() - old(self).incremental_pos)
                &&& pack::packs(
                    final(output)@.take(n as int),
                    data@.take(old(self).incremental_pos as int),
                    data@,
                    is_final,
                )
            }),
            old(self).incremental_pos < data@.len() ==> (r matches Ok(n) ==> pack::holds_coded(
                final(output)@.take(n as int),
                data@,
                old(self).incremental_pos as int,
                is_final,
            )),
            old(self).incremental_pos < data@.len() ==> (r matches Ok(n) ==> holds_piece(
                *old(self),
                *final(self),
                final(output)@.take(n as int),
                data@,
                is_final,
            )),
            old(self).incremental_pos == data@.len() && is_final ==> (r matches Ok(n)
                ==> bits::to_bits(final(output)@.take(n as int)) == stored::with_stored(
                Seq::empty(),
                Seq::empty(),
                true,
            )),
            r is Ok ==> final(self).incremental_pos == data@.len(),
            r is Err ==> final(self).incremental_pos == old(self).incremental_pos,
            old(self).incremental_pos < data@.len() || is_final ==> piece_result(
                *old(self),
                *final(self),
                data@,
                is_final,
                old(output)@.len() as int,
                r,
                final(output)@.take(
                    if r is Ok {
                        r->Ok_0 as int
                    } else {
                        0
                    },
                ),
            ),
            r matches Err(CompressionError::InsufficientSpace) ==> !incremental_strategy(
                old(self).level.strategy,
            ) || old(output)@.len() < progress::bound(data@.len() - old(self).incremental_pos),
            r matches Err(CompressionError::Stopped(_)) ==> !stop.never_stops(),
    {
        let total: usize = data.len();
        let start: usize = self.incremental_pos;
        let ghost h = data@;
        let ghost pre = h.take(start as int);
        if start >= total && !is_final {
            return Ok(0);
        }
        let strategy: InternalStrategy = self.level.strategy;
        proof {
            compressor::lemma_depths(self.level, self.params);
        }
        let mut os: OutputBitstream<'_> = OutputBitstream::new(output);
        let ghost o0 = os;
        proof {
            assert(o0.bits() =~= Seq::empty());
            emit::lemma_chain_start(pre);
            assert(h.take(h.len() as int) =~= h);
        }
        let r: Result<(), CompressionError>;
        if strategy == InternalStrategy::HtGreedy {
            r = self.compress_incremental_ht(&mut os, data, is_final, &stop);
        } else if strategy == InternalStrategy::Greedy {
            r = self.compress_incremental_hc(&mut os, data, is_final, Lookahead::Greedy, &stop);
        } else if strategy == InternalStrategy::Lazy || strategy == InternalStrategy::Lazy2 {
            r = self.compress_incremental_hc(&mut os, data, is_final, Lookahead::Lazy, &stop);
        } else {
            return Err(CompressionError::InsufficientSpace);
        }
        match r {
            Ok(_) => {},
            Err(e) => {
                return Err(e);
            },
        }
        if os.overflow {
            return Err(CompressionError::InsufficientSpace);
        }
        let ghost b = os.bits();
        proof {
            emit::lemma_extends_apply(pre, o0.bits(), pre, b, h, is_final);
        }
        match finish_bytes(&mut os) {
            Some(n) => {
                assert(pack::packed(os.buf@.take(n as int), pre, h, is_final, b));
                proof {
                    if start < h.len() {
                        assert(progress::coded(
                            Seq::empty(),
                            b,
                            h,
                            start as int,
                            h.len() as int,
                            is_final,
                        ));
                        assert(moved_on(*old(self), *self, h, Seq::empty(), b, is_final));
                    } else {
                        assert(b.len() % 8 == 0);
                        assert(b =~= bits::to_bits(os.buf@.take(n as int)));
                    }
                }
                Ok(n)
            },
            None => {
                proof {
                    assert(start < h.len()) by {
                        stored::lemma_with_stored_len(Seq::empty(), Seq::empty(), true);
                    }
                    assert(moved_on(*old(self), *self, h, Seq::empty(), b, is_final));
                    lemma_piece_spills(
                        *old(self),
                        *self,
                        h,
                        Seq::empty(),
                        b,
                        is_final,
                        old(output)@.len() as int,
                    );
                }
                self.forget(start);
                Err(CompressionError::InsufficientSpace)
            },
        }
    }

    /// Cost estimation using the hash table matchfinder.
    fn estimate_cost_incremental_ht(&mut self, input: &[u8], codes: &DeflateCodes) -> (cost: u64)
        requires
            old(self).wf(),
            old(self).ht_mf is Some,
            old(self).level.strategy == InternalStrategy::HtGreedy,
            old(self).incremental_pos < input@.len(),
            16 * input@.len() <= u64::MAX,
            codes.bounded(),
        ensures
            final(self).wf(),
            final(self).same_setup(*old(self)),
            final(self).codes == old(self).codes,
            final(self).incremental_pos == input@.len(),
            is_cost_of(
                input@,
                old(self).incremental_pos as int,
                input@.len() as int,
                codes.lens_litlen@,
                codes.lens_offset@,
                cost as int,
            ),
            passed_at(
                *old(self),
                *final(self),
                input@,
                codes.lens_litlen@,
                codes.lens_offset@,
                cost as int,
            ),
    {
        let ghost h = input@;
        let ghost setup = ht_setup(*self);
        let ghost mut k: nat = 0;
        let in_end: usize = input.len();
        let start: usize = self.incremental_pos;
        let mut base: usize = self.incremental_base_offset;
        let mut next: usize = start;
        let mut cost: u64 = 0;
        proof {
            lemma_cost_start(h, start as int, codes.lens_litlen@, codes.lens_offset@);
        }
        match &mut self.ht_mf {
            Some(mf) => {
                if start == 0 {
                    assert(mf.wf(base as int, start as int));
                    mf.init();
                    base = 0;
                }
                let nice: u32 = self.params.nice_match_length;
                let out = &mut self.parse;
                while next < in_end
                    invariant
                        h == input@,
                        fastest::after_blocks::<HtMatchfinder>(setup, h, k).next == next,
                        fastest::after_blocks::<HtMatchfinder>(setup, h, k).memory.tab
                            == mf.table(),
                        fastest::after_blocks::<HtMatchfinder>(setup, h, k).memory.base == base,
                        fastest::blocks_cost::<HtMatchfinder>(
                            setup,
                            h,
                            codes.lens_litlen@,
                            codes.lens_offset@,
                            k,
                        ) == cost,
                        forall|i: nat|
                            i < k ==> (#[trigger] fastest::after_blocks::<HtMatchfinder>(
                                setup,
                                h,
                                i,
                            )).next < in_end,
                        setup.nice == nice,
                        setup.soft_max_len == 4185000,
                        !setup.blind,
                        in_end == h.len(),
                        start <= next <= in_end,
                        base <= next,
                        mf.wf(base as int, next as int),
                        16 * in_end <= u64::MAX,
                        codes.bounded(),
                        is_cost_of(
                            h,
                            start as int,
                            next as int,
                            codes.lens_litlen@,
                            codes.lens_offset@,
                            cost as int,
                        ),
                    decreases in_end - next,
                {
                    let begin: usize = next;
                    let max_block_end: usize = choose_max_block_end(
                        begin,
                        in_end,
                        INCREMENTAL_SOFT_MAX_BLOCK_LENGTH,
                    );
                    next = fastest::parse_block(
                        mf,
                        input,
                        &mut base,
                        begin,
                        max_block_end,
                        FAST_SEQ_STORE_LENGTH,
                        nice,
                        false,
                        &mut out.freqs,
                        &mut out.seqs,
                    );
                    let c: u64 = symbol_cost(&out.freqs, codes);
                    proof {
                        let its = sequences::items_of(out.seqs@);
                        block::lemma_symbol_cost(
                            out.freqs,
                            h,
                            begin as int,
                            its,
                            0,
                            codes.lens_litlen@,
                            codes.lens_offset@,
                        );
                        lemma_cost_block(h, start as int, begin as int, its, *codes, cost as int);
                    }
                    cost = cost + c;
                    proof {
                        k = k + 1;
                        assert((k - 1) as nat + 1 == k);
                    }
                }
            },
            None => {},
        }
        self.incremental_base_offset = base;
        self.incremental_pos = in_end;
        cost
    }

    /// Cost estimation using the hash chains matchfinder.
    fn estimate_cost_incremental_hc(
        &mut self,
        input: &[u8],
        look: Lookahead,
        codes: &DeflateCodes,
    ) -> (cost: u64)
        requires
            old(self).wf(),
            old(self).hc_mf is Some,
            old(self).params.max_search_depth >= 4,
            old(self).level.strategy != InternalStrategy::HtGreedy,
            look == incremental_look(old(self).level.strategy),
            old(self).incremental_pos < input@.len(),
            16 * input@.len() <= u64::MAX,
            codes.bounded(),
        ensures
            final(self).wf(),
            final(self).same_setup(*old(self)),
            final(self).codes == old(self).codes,
            final(self).incremental_pos == input@.len(),
            is_cost_of(
                input@,
                old(self).incremental_pos as int,
                input@.len() as int,
                codes.lens_litlen@,
                codes.lens_offset@,
                cost as int,
            ),
            passed_at(
                *old(self),
                *final(self),
                input@,
                codes.lens_litlen@,
                codes.lens_offset@,
                cost as int,
            ),
    {
        let ghost h = input@;
        let ghost setup = hc_setup(*self, look);
        let ghost mut k: nat = 0;
        let in_end: usize = input.len();
        let start: usize = self.incremental_pos;
        let mut base: usize = self.incremental_base_offset;
        let mut cost: u64 = 0;
        proof {
            lemma_cost_start(h, start as int, codes.lens_litlen@, codes.lens_offset@);
        }
        match &mut self.hc_mf {
            Some(mf) => {
                if start == 0 {
                    assert(mf.wf(base as int, start as int));
                    mf.init();
                    base = 0;
                }
                let sp = &self.params;
                let out = &mut self.parse;
                let mut cur: Cursor = Cursor::new(start, base, sp.nice_match_length);
                let min_len: u32 = calculate_min_match_len(
                    input,
                    start,
                    in_end,
                    sp.max_search_depth,
                );
                while cur.next < in_end
                    invariant
                        h == input@,
                        chain_model::after_passes(setup, h, k).place == cur.place(*mf),
                        chain_model::pass_cost(
                            setup,
                            h,
                            codes.lens_litlen@,
                            codes.lens_offset@,
                            k,
                        ) == cost,
                        forall|i: nat|
                            i < k ==> (#[trigger] chain_model::after_passes(setup, h, i)).place.next
                                < in_end,
                        setup.sp == *sp,
                        setup.look == look,
                        min_len == chain_model::pass_min_len(setup, h),
                        3 <= min_len <= 9,
                        setup.soft_max_len == 4185000,
                        !setup.split,
                        in_end == h.len(),
                        start <= cur.next <= in_end,
                        cur.wf(*mf, in_end as int),
                        sp.max_search_depth >= 4,
                        16 * in_end <= u64::MAX,
                        codes.bounded(),
                        is_cost_of(
                            h,
                            start as int,
                            cur.next as int,
                            codes.lens_litlen@,
                            codes.lens_offset@,
                            cost as int,
                        ),
                    decreases in_end - cur.next,
                {
                    let begin: usize = cur.next;
                    let max_block_end: usize = choose_max_block_end(
                        begin,
                        in_end,
                        INCREMENTAL_SOFT_MAX_BLOCK_LENGTH,
                    );
                    chains::parse_block_from(
                        mf,
                        &mut cur,
                        out,
                        input,
                        max_block_end,
                        sp,
                        look,
                        false,
                        min_len,
                    );
                    let c: u64 = symbol_cost(&out.freqs, codes);
                    proof {
                        let its = sequences::items_of(out.seqs@);
                        block::lemma_symbol_cost(
                            out.freqs,
                            h,
                            begin as int,
                            its,
                            0,
                            codes.lens_litlen@,
                            codes.lens_offset@,
                        );
                        lemma_cost_block(h, start as int, begin as int, its, *codes, cost as int);
                    }
                    cost = cost + c;
                    proof {
                        k = k + 1;
                        assert((k - 1) as nat + 1 == k);
                    }
                }
                base = cur.base;
            },
            None => {},
        }
        self.incremental_base_offset = base;
        self.incremental_pos = in_end;
        cost
    }

    /// Estimate the compressed bit cost of new data without producing output.
    ///
    /// Runs LZ77 matching on the new portion of `data` and adds up the bits of the
    /// literals and matches, by the code lengths of the most recent compressed block;
    /// if there was none, by those of the static codes.
    ///
    /// This modifies matchfinder state just like incremental compression. Use
    /// [`snapshot`](Self::snapshot)/[`restore`](Self::restore) to evaluate multiple
    /// candidates from the same starting state.
    pub fn deflate_estimate_cost_incremental<S: Stop>(
        &mut self,
        data: &[u8],
        stop: S,
    ) -> (r: Result<u64, CompressionError>)
        requires
            old(self).wf(),
            16 * data@.len() <= u64::MAX,
        ensures
            final(self).wf(),
            final(self).same_setup(*old(self)),
            final(self).codes == old(self).codes,
            old(self).incremental_pos >= data@.len() ==> r == Ok::<u64, CompressionError>(0)
                && *final(self) == *old(self),
            old(self).incremental_pos < data@.len() && !incremental_strategy(
                old(self).level.strategy,
            ) ==> r == Err::<u64, CompressionError>(CompressionError::InsufficientSpace),
            old(self).incremental_pos < data@.len() ==> (r matches Ok(cost) ==> is_cost_of(
                data@,
                old(self).incremental_pos as int,
                data@.len() as int,
                old(self).estimate_codes().lens_litlen@,
                old(self).estimate_codes().lens_offset@,
                cost as int,
            ) && final(self).incremental_pos == data@.len()),
            old(self).incremental_pos < data@.len() ==> (r matches Ok(cost) ==> passed_at(
                *old(self),
                *final(self),
                data@,
                old(self).estimate_codes().lens_litlen@,
                old(self).estimate_codes().lens_offset@,
                cost as int,
            )),
            r is Err ==> final(self).incremental_pos == old(self).incremental_pos,
            r matches Err(CompressionError::InsufficientSpace) ==> !incremental_strategy(
                old(self).level.strategy,
            ),
            r matches Err(CompressionError::Stopped(_)) ==> !stop.never_stops(),
    {
        if self.incremental_pos >= data.len() {
            return Ok(0);
        }
        let codes: DeflateCodes = if self.codes.lens_litlen[256] > 0 {
            self.codes
        } else {
            self.static_codes
        };
        let strategy: InternalStrategy = self.level.strategy;
        if strategy != InternalStrategy::HtGreedy && strategy != InternalStrategy::Greedy
            && strategy != InternalStrategy::Lazy && strategy != InternalStrategy::Lazy2 {
            return Err(CompressionError::InsufficientSpace);
        }
        match stop.check() {
            Ok(_) => {},
            Err(e) => {
                return Err(CompressionError::Stopped(e));
            },
        }
        proof {
            compressor::lemma_depths(self.level, self.params);
        }
        if strategy == InternalStrategy::HtGreedy {
            Ok(self.estimate_cost_incremental_ht(data, &codes))
        } else if strategy == InternalStrategy::Greedy {
            Ok(self.estimate_cost_incremental_hc(data, Lookahead::Greedy, &codes))
        } else {
            Ok(self.estimate_cost_incremental_hc(data, Lookahead::Lazy, &codes))
        }
    }
}

} // verus!
