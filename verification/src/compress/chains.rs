//! Greedy and lazy compression with the hash chains matchfinder.

use crate::arith::{min_u32, min_usize};
use crate::compress::bitstream::OutputBitstream;
use crate::compress::block;
use crate::compress::block::{
    begin_block, choose_literal, choose_match, finish_block, DeflateCodes, DeflateFreqs,
};
use crate::compress::block_split;
use crate::compress::block_split::BlockSplitStats;
use crate::compress::chain_model;
use crate::compress::chain_model::{Place, Setup, Work};
use crate::compress::items;
use crate::compress::params;
use crate::compress::params::{
    adjust_max_and_nice_len, bsr32, calculate_min_match_len, recalculate_min_match_len,
};
use crate::compress::progress;
use crate::compress::progress::{
    choose_max_block_end, dictionary_start, SEQ_STORE_LENGTH, SOFT_MAX_BLOCK_LENGTH,
};
use crate::compress::sequences;
use crate::compress::sequences::Sequence;
use crate::error::CompressionError;
use crate::matchfinder::hc::HcMatchfinder;
use crate::stop::Stop;
use vstd::prelude::*;

verus! {

/// How hard to search for matches.
#[derive(Clone, Copy, Debug)]
pub struct SearchParams {
    /// Number of chain positions to search.
    pub max_search_depth: u32,
    /// Stop searching if a match this long is found.
    pub nice_match_length: u32,
    /// Search a quarter of the positions if what is to beat is this long.
    pub good_match: u32,
    /// Take a match this long without looking ahead.
    pub max_lazy: u32,
}

/// How matches are chosen.
#[derive(Clone, Copy, PartialEq, Eq, Structural)]
pub enum Lookahead {
    /// Take the longest match at each position.
    Greedy,
    /// Look for a better match at the next position.
    Lazy,
    /// Look for better matches at the next two positions.
    Lazy2,
}

/// The matchfinder is in some valid state.
pub open spec fn valid(mf: HcMatchfinder) -> bool {
    exists|b: int, n: int| mf.wf(b, n)
}

/// A position in the input with what a search there needs.
pub struct Cursor {
    /// The next position.
    pub next: usize,
    /// The base of the matchfinder's entries.
    pub base: usize,
    /// The longest match to look for.
    pub max_len: u32,
    /// A match this long ends a search.
    pub nice_len: u32,
    /// The hashes at the next position.
    pub hashes: [u32; 2],
}

impl Cursor {
    /// The cursor and the matchfinder fit the input.
    pub open spec fn wf(&self, mf: HcMatchfinder, len: int) -> bool {
        &&& self.next <= len
        &&& self.base <= self.next
        &&& self.nice_len <= self.max_len <= 258
        &&& self.hashes@[0] < 32768
        &&& self.hashes@[1] < 65536
        &&& mf.wf(self.base as int, self.next as int)
    }

    /// The position and the tables there.
    pub open spec fn place(&self, mf: HcMatchfinder) -> Place {
        Place {
            tabs: mf.tabs(self.base as int),
            next: self.next as int,
            max_len: self.max_len as int,
            nice_len: self.nice_len as int,
            hash3: self.hashes@[0] as int,
            hash4: self.hashes@[1] as int,
        }
    }

    /// Start at a position.
    pub fn new(next: usize, base: usize, nice_match_length: u32) -> (r: Self)
        ensures
            r.next == next,
            r.base == base,
            r.max_len == 258,
            r.nice_len == chain_model::lesser(258, nice_match_length as int),
            r.hashes@[0] == 0,
            r.hashes@[1] == 0,
    {
        Cursor {
            next,
            base,
            max_len: 258,
            nice_len: min_u32(258, nice_match_length),
            hashes: [0u32; 2],
        }
    }

    /// Find a match longer than `best_len` at the cursor, and move on by one.
    fn find(
        &mut self,
        mf: &mut HcMatchfinder,
        input: &[u8],
        best_len: u32,
        depth: u32,
        good_match: u32,
    ) -> (r: (u32, u32))
        requires
            old(self).wf(*old(mf), input@.len() as int),
            old(self).next < input@.len(),
            depth > 0,
        ensures
            final(self).wf(*final(mf), input@.len() as int),
            final(self).next == old(self).next + 1,
            r.0 >= best_len,
            r.0 > best_len ==> r.1 > 0 && items::item_ok(
                input@,
                old(self).next as int,
                (r.0 as int, r.1 as int),
            ),
            (r.0 as int, r.1 as int) == chain_model::found_at(
                old(self).place(*old(mf)),
                input@,
                best_len as int,
                depth as int,
                good_match as int,
            ),
            final(self).place(*final(mf)) == chain_model::after_find(
                old(self).place(*old(mf)),
                input@,
            ),
    {
        adjust_max_and_nice_len(&mut self.max_len, &mut self.nice_len, input.len() - self.next);
        let r: (u32, u32) = mf.longest_match(
            input,
            &mut self.base,
            self.next,
            best_len,
            self.max_len,
            self.nice_len,
            depth,
            good_match,
            &mut self.hashes,
        );
        self.next = self.next + 1;
        r
    }

    /// Move on over `count` bytes.
    fn skip(&mut self, mf: &mut HcMatchfinder, input: &[u8], count: u32)
        requires
            old(self).wf(*old(mf), input@.len() as int),
            old(self).next + count <= input@.len(),
        ensures
            final(self).wf(*final(mf), input@.len() as int),
            final(self).next == old(self).next + count,
            final(self).place(*final(mf)) == chain_model::after_skip(
                old(self).place(*old(mf)),
                input@,
                count as int,
            ),
    {
        let n: usize = input.len();
        mf.skip_bytes(input, &mut self.base, self.next, count, &mut self.hashes);
        self.next = self.next + count as usize;
    }
}

/// What is known of a block: its sequences, how often each symbol occurs, and the
/// observations for splitting.
pub struct Parse {
    /// How often each symbol occurs.
    pub freqs: DeflateFreqs,
    /// The observations.
    pub split_stats: BlockSplitStats,
    /// The literals and matches.
    pub seqs: Vec<Sequence>,
}

impl Parse {
    /// The parse covers the data from `base` to `cur`.
    pub open spec fn covers(&self, h: Seq<u8>, base: int, cur: int) -> bool {
        &&& block::parsed(h, base, cur, self.seqs@, self.freqs)
        &&& self.split_stats.wf()
        &&& self.split_stats.total() <= cur - base
        &&& cur - base >= 3 * (self.seqs@.len() - 1)
    }

    /// The parse, the observations, and where the cursor is.
    pub open spec fn work(&self, place: Place) -> Work {
        Work {
            place,
            its: sequences::items_of(self.seqs@),
            matches: self.seqs@.len() - 1,
            seen: self.split_stats.observed(),
        }
    }

    /// Start a block.
    fn begin(&mut self, h: Ghost<Seq<u8>>, base: Ghost<int>)
        ensures
            final(self).covers(h@, base@, base@),
            final(self).seqs@.len() == 1,
            sequences::items_of(final(self).seqs@) == Seq::<(int, int)>::empty(),
            final(self).split_stats.observed() == block_split::nothing(),
    {
        self.split_stats = BlockSplitStats::new();
        begin_block(&mut self.freqs, &mut self.seqs, h, base);
    }

    /// Take a literal.
    fn literal(&mut self, input: &[u8], base: Ghost<int>, cur: usize)
        requires
            old(self).covers(input@, base@, cur as int),
            0 <= base@ <= cur < input@.len(),
            cur - base@ < 0x40_0000,
        ensures
            final(self).covers(input@, base@, cur + 1),
            final(self).seqs@.len() == old(self).seqs@.len(),
            forall|p: Place| #[trigger]
                final(self).work(p) == chain_model::with_literal(
                    old(self).work(p),
                    input@[cur as int],
                ),
    {
        let lit: u8 = input[cur];
        choose_literal(
            &mut self.freqs,
            lit,
            &mut self.seqs,
            Ghost(input@),
            base,
            Ghost(cur as int),
        );
        self.split_stats.observe_literal(lit);
    }

    /// Take a match.
    fn take_match(&mut self, input: &[u8], base: Ghost<int>, cur: usize, length: u32, offset: u32)
        requires
            old(self).covers(input@, base@, cur as int),
            0 <= base@ <= cur <= input@.len(),
            cur - base@ < 0x40_0000,
            offset > 0,
            items::item_ok(input@, cur as int, (length as int, offset as int)),
        ensures
            final(self).covers(input@, base@, cur + length),
            final(self).seqs@.len() == old(self).seqs@.len() + 1,
            forall|p: Place| #[trigger]
                final(self).work(p) == chain_model::with_match(
                    old(self).work(p),
                    (length as int, offset as int),
                ),
    {
        choose_match(
            &mut self.freqs,
            length,
            offset,
            &mut self.seqs,
            Ghost(input@),
            base,
            Ghost(cur as int),
        );
        self.split_stats.observe_match(length);
    }
}

/// The next match is so much better than the current one that literals before it
/// pay off: four for each byte of length, one less for each bit of offset.
fn is_better(
    cur_len: u32,
    cur_offset: u32,
    next_len: u32,
    next_offset: u32,
    threshold: i32,
) -> (r: bool)
    requires
        cur_len <= 258,
        next_len <= 258,
        cur_offset > 0,
        next_len >= cur_len ==> next_offset > 0,
    ensures
        r == chain_model::better(
            (cur_len as int, cur_offset as int),
            (next_len as int, next_offset as int),
            threshold as int,
        ),
{
    if next_len < cur_len {
        return false;
    }
    let a: i32 = bsr32(cur_offset) as i32;
    let b: i32 = bsr32(next_offset) as i32;
    4 * (next_len as i32 - cur_len as i32) + (a - b) > threshold
}

/// Take the match at the position before the cursor, or a better one that begins
/// a few bytes later, and move on past it.
fn take_lazily(
    mf: &mut HcMatchfinder,
    cur: &mut Cursor,
    out: &mut Parse,
    input: &[u8],
    base: Ghost<int>,
    first_len: u32,
    first_offset: u32,
    sp: &SearchParams,
    lazy2: bool,
)
    requires
        old(cur).wf(*old(mf), input@.len() as int),
        0 <= base@ < old(cur).next,
        old(cur).next - base@ < 0x3f_f800,
        old(out).covers(input@, base@, old(cur).next - 1),
        first_offset > 0,
        items::item_ok(input@, old(cur).next - 1, (first_len as int, first_offset as int)),
        sp.max_search_depth >= 4,
    ensures
        final(cur).wf(*final(mf), input@.len() as int),
        old(cur).next < final(cur).next <= old(cur).next + 1400,
        final(out).covers(input@, base@, final(cur).next as int),
        final(out).work(final(cur).place(*final(mf))) == chain_model::lazily(
            old(out).work(old(cur).place(*old(mf))),
            input@,
            (first_len as int, first_offset as int),
            *sp,
            lazy2,
        ),
{
    let n: usize = input.len();
    let ghost goal = chain_model::lazily(
        out.work(cur.place(*mf)),
        input@,
        (first_len as int, first_offset as int),
        *sp,
        lazy2,
    );
    let ghost entry = cur.next as int;
    let mut cur_len: u32 = first_len;
    let mut cur_offset: u32 = first_offset;
    let ghost phi0 = 4 * cur_len - params::log2_of(cur_offset as int);
    proof {
        params::lemma_log2_range(cur_offset);
    }
    loop
        invariant
            n == input@.len(),
            goal == chain_model::lazily(
                old(out).work(old(cur).place(*old(mf))),
                input@,
                (first_len as int, first_offset as int),
                *sp,
                lazy2,
            ),
            goal == chain_model::lazily(
                out.work(cur.place(*mf)),
                input@,
                (cur_len as int, cur_offset as int),
                *sp,
                lazy2,
            ),
            sp.max_search_depth >= 4,
            cur.wf(*mf, n as int),
            entry == old(cur).next,
            0 <= base@ < entry,
            entry - base@ < 0x3f_f800,
            entry <= cur.next,
            out.covers(input@, base@, cur.next - 1),
            cur_offset > 0,
            items::item_ok(input@, cur.next - 1, (cur_len as int, cur_offset as int)),
            phi0 >= 12 - 31,
            params::log2_of(cur_offset as int) >= 0,
            cur.next - entry <= 4 * cur_len - params::log2_of(cur_offset as int) - phi0,
        decreases n - cur.next,
    {
        let start: usize = cur.next - 1;
        if cur_len >= cur.nice_len || cur_len >= sp.max_lazy {
            out.take_match(input, base, start, cur_len, cur_offset);
            cur.skip(mf, input, cur_len - 1);
            return;
        }
        let next: (u32, u32) = cur.find(
            mf,
            input,
            cur_len - 1,
            sp.max_search_depth / 2,
            sp.good_match,
        );
        if is_better(cur_len, cur_offset, next.0, next.1, 2) {
            out.literal(input, base, start);
            cur_len = next.0;
            cur_offset = next.1;
            proof {
                params::lemma_log2_range(cur_offset);
            }
            continue ;
        }
        if lazy2 {
            let next2: (u32, u32) = cur.find(
                mf,
                input,
                cur_len - 1,
                sp.max_search_depth / 4,
                sp.good_match,
            );
            if is_better(cur_len, cur_offset, next2.0, next2.1, 6) {
                out.literal(input, base, start);
                out.literal(input, base, start + 1);
                cur_len = next2.0;
                cur_offset = next2.1;
                proof {
                    params::lemma_log2_range(cur_offset);
                }
                continue ;
            }
            out.take_match(input, base, start, cur_len, cur_offset);
            cur.skip(mf, input, cur_len - 3);
        } else {
            out.take_match(input, base, start, cur_len, cur_offset);
            cur.skip(mf, input, cur_len - 2);
        }
        return;
    }
}

/// Take what the search at the cursor gives: a literal, or a match, when looking ahead
/// perhaps with literals before it.
fn parse_item(
    mf: &mut HcMatchfinder,
    cur: &mut Cursor,
    out: &mut Parse,
    input: &[u8],
    base: Ghost<int>,
    sp: &SearchParams,
    look: Lookahead,
    min_len: u32,
)
    requires
        old(cur).wf(*old(mf), input@.len() as int),
        old(cur).next < input@.len(),
        0 <= base@ <= old(cur).next,
        old(cur).next - base@ < 0x3f_f000,
        old(out).covers(input@, base@, old(cur).next as int),
        3 <= min_len <= 9,
        sp.max_search_depth >= 4,
    ensures
        final(cur).wf(*final(mf), input@.len() as int),
        old(cur).next < final(cur).next <= old(cur).next + 1401,
        final(out).covers(input@, base@, final(cur).next as int),
        final(out).work(final(cur).place(*final(mf))) == chain_model::step(
            old(out).work(old(cur).place(*old(mf))),
            input@,
            *sp,
            look,
            min_len as int,
        ),
{
    reveal(chain_model::step);
    let start: usize = cur.next;
    let r: (u32, u32) = cur.find(mf, input, min_len - 1, sp.max_search_depth, sp.good_match);
    let limit: u32 = if look == Lookahead::Greedy {
        4096
    } else {
        8192
    };
    if r.0 < min_len || (r.0 == 3 && r.1 > limit) {
        out.literal(input, base, start);
    } else if look == Lookahead::Greedy {
        out.take_match(input, base, start, r.0, r.1);
        cur.skip(mf, input, r.0 - 1);
    } else {
        take_lazily(
            mf,
            cur,
            out,
            input,
            base,
            r.0,
            r.1,
            sp,
            look == Lookahead::Lazy2,
        );
    }
}

/// Parse a block from the cursor on.
///
/// Ends at `max_block_end`, or where the sequence store is full, or, if `split` is
/// set, where the data changes.
pub fn parse_block(
    mf: &mut HcMatchfinder,
    cur: &mut Cursor,
    out: &mut Parse,
    input: &[u8],
    max_block_end: usize,
    sp: &SearchParams,
    look: Lookahead,
    split: bool,
)
    requires
        old(cur).wf(*old(mf), input@.len() as int),
        old(cur).next < max_block_end <= input@.len(),
        max_block_end - old(cur).next <= 4190000,
        sp.max_search_depth >= 4,
    ensures
        final(cur).wf(*final(mf), input@.len() as int),
        old(cur).next < final(cur).next < max_block_end + 1700,
        final(out).covers(input@, old(cur).next as int, final(cur).next as int),
        final(cur).next >= max_block_end || final(cur).next - old(cur).next >= 5000,
        final(cur).next >= max_block_end || input@.len() - final(cur).next >= 5000 || final(cur).next
            - old(cur).next >= 10000,
        final(out).work(final(cur).place(*final(mf))) == chain_model::block_run(
            old(cur).place(*old(mf)),
            input@,
            max_block_end as int,
            *sp,
            look,
            split,
        ),
{
    let min_len: u32 = calculate_min_match_len(
        input,
        cur.next,
        max_block_end,
        sp.max_search_depth,
    );
    parse_block_from(mf, cur, out, input, max_block_end, sp, look, split, min_len)
}

/// Parse a block from the cursor on, at first with matches of `first_min_len` bytes at
/// least.
pub fn parse_block_from(
    mf: &mut HcMatchfinder,
    cur: &mut Cursor,
    out: &mut Parse,
    input: &[u8],
    max_block_end: usize,
    sp: &SearchParams,
    look: Lookahead,
    split: bool,
    first_min_len: u32,
)
    requires
        old(cur).wf(*old(mf), input@.len() as int),
        old(cur).next < max_block_end <= input@.len(),
        max_block_end - old(cur).next <= 4190000,
        sp.max_search_depth >= 4,
        3 <= first_min_len <= 9,
    ensures
        final(cur).wf(*final(mf), input@.len() as int),
        old(cur).next < final(cur).next < max_block_end + 1700,
        final(out).covers(input@, old(cur).next as int, final(cur).next as int),
        final(cur).next >= max_block_end || final(cur).next - old(cur).next >= 5000,
        final(cur).next >= max_block_end || input@.len() - final(cur).next >= 5000 || final(cur).next
            - old(cur).next >= 10000,
        final(out).work(final(cur).place(*final(mf))) == chain_model::run(
            Work {
                place: old(cur).place(*old(mf)),
                its: Seq::empty(),
                matches: 0,
                seen: block_split::nothing(),
            },
            input@,
            old(cur).next as int,
            max_block_end as int,
            *sp,
            look,
            split,
            first_min_len as int,
            old(cur).next + chain_model::lesser(input@.len() - old(cur).next, 10000),
        ),
{
    let ghost goal = chain_model::run(
        Work {
            place: cur.place(*mf),
            its: Seq::empty(),
            matches: 0,
            seen: block_split::nothing(),
        },
        input@,
        cur.next as int,
        max_block_end as int,
        *sp,
        look,
        split,
        first_min_len as int,
        cur.next + chain_model::lesser(input@.len() - cur.next, 10000),
    );
    let in_end: usize = input.len();
    let block_begin: usize = cur.next;
    let ghost h = input@;
    let ghost base = block_begin as int;
    let depth: u32 = sp.max_search_depth;
    let mut min_len: u32 = first_min_len;
    let mut next_recalc: usize = block_begin + min_usize(in_end - block_begin, 10000);
    out.begin(Ghost(h), Ghost(base));
    loop
        invariant
            h == input@,
            in_end == h.len(),
            base == block_begin,
            block_begin == old(cur).next,
            cur.wf(*mf, in_end as int),
            block_begin <= cur.next < max_block_end <= in_end,
            max_block_end - block_begin <= 4190000,
            out.covers(h, base, cur.next as int),
            3 <= min_len <= 9,
            block_begin <= next_recalc <= in_end,
            depth == sp.max_search_depth,
            depth >= 4,
            goal == chain_model::run(
                Work {
                    place: old(cur).place(*old(mf)),
                    its: Seq::empty(),
                    matches: 0,
                    seen: block_split::nothing(),
                },
                h,
                old(cur).next as int,
                max_block_end as int,
                *sp,
                look,
                split,
                first_min_len as int,
                old(cur).next + chain_model::lesser(h.len() - old(cur).next, 10000),
            ),
            goal == chain_model::run(
                out.work(cur.place(*mf)),
                h,
                base,
                max_block_end as int,
                *sp,
                look,
                split,
                min_len as int,
                next_recalc as int,
            ),
        decreases in_end - cur.next,
    {
        let start: usize = cur.next;
        if look != Lookahead::Greedy && split && start >= next_recalc {
            proof {
                block::lemma_parsed_bound(h, base, start as int, out.seqs@, out.freqs);
                let its = sequences::items_of(out.seqs@);
                assert(chain_model::symbol_counts(h, base, its) =~= out.freqs.litlen@) by {
                    assert forall|s: int| 0 <= s < 288 implies out.freqs.litlen@[s]
                        == items::litlen_count(h, base, its, s) by {
                        assert(out.freqs.counts(h, base, its, 0));
                    }
                }
            }
            min_len = recalculate_min_match_len(&out.freqs, depth);
            next_recalc = next_recalc + min_usize(in_end - next_recalc, start - block_begin);
        }
        parse_item(mf, cur, out, input, Ghost(base), sp, look, min_len);
        if cur.next >= max_block_end || out.seqs.len() - 1 >= SEQ_STORE_LENGTH {
            return;
        }
        if split && out.split_stats.should_end_block(block_begin, cur.next, in_end) {
            return;
        }
    }
}

/// Compress the input from the cursor on, block by block.
///
/// If `split` is set, blocks also end where the data changes.
pub fn compress_blocks<S: Stop>(
    mf: &mut HcMatchfinder,
    cur: &mut Cursor,
    os: &mut OutputBitstream<'_>,
    input: &[u8],
    force_nonfinal: bool,
    sp: &SearchParams,
    look: Lookahead,
    soft_max_len: usize,
    split: bool,
    out: &mut Parse,
    codes: &mut DeflateCodes,
    static_codes: &DeflateCodes,
    stop: &S,
) -> (r: Result<(), CompressionError>)
    requires
        old(cur).wf(*old(mf), input@.len() as int),
        old(os).flushed(),
        old(cur).next < input@.len(),
        10000 <= soft_max_len <= 4185000,
        static_codes.is_static(),
        sp.max_search_depth >= 4,
    ensures
        final(cur).wf(*final(mf), input@.len() as int),
        final(os).flushed(),
        final(os).buf@.len() == old(os).buf@.len(),
        final(final(os).buf)@ == final(old(os).buf)@,
        old(codes).bounded() ==> final(codes).bounded(),
        r is Ok ==> progress::progress(
            *old(os),
            *final(os),
            input@,
            old(cur).next as int,
            input@.len() as int,
            !force_nonfinal,
        ),
        r is Ok ==> progress::tight(
            *old(os),
            *final(os),
            input@,
            old(cur).next as int,
            input@.len() as int,
        ),
        r is Ok && !final(os).overflow ==> progress::coded(
            old(os).bits(),
            final(os).bits(),
            input@,
            old(cur).next as int,
            input@.len() as int,
            !force_nonfinal,
        ),
        r is Ok ==> final(cur).next == input@.len() || final(os).overflow,
        r is Ok && !final(os).overflow ==> chain_model::written_to(
            Setup {
                place: old(cur).place(*old(mf)),
                sp: *sp,
                look,
                soft_max_len: soft_max_len as int,
                split,
            },
            input@,
            old(os).bits(),
            final(os).bits(),
            !force_nonfinal,
            final(cur).place(*final(mf)),
        ),
        r is Ok && !final(os).overflow ==> chain_model::last_codes(
            Setup {
                place: old(cur).place(*old(mf)),
                sp: *sp,
                look,
                soft_max_len: soft_max_len as int,
                split,
            },
            input@,
            old(os).bits(),
            final(os).bits(),
            !force_nonfinal,
            input@.len() as int,
            final(codes).lens_litlen@,
            final(codes).lens_offset@,
        ),
        r is Ok && final(os).overflow && !old(os).overflow ==> chain_model::spills(
            Setup {
                place: old(cur).place(*old(mf)),
                sp: *sp,
                look,
                soft_max_len: soft_max_len as int,
                split,
            },
            input@,
            old(os).bits(),
            !force_nonfinal,
            old(os).buf@.len() as int,
        ),
        r matches Err(e) ==> e is Stopped && !stop.never_stops(),
{
    let in_end: usize = input.len();
    let start: usize = cur.next;
    let ghost o0 = *os;
    let ghost fin = final(os.buf)@;
    let ghost h = input@;
    let ghost c = Setup {
        place: cur.place(*mf),
        sp: *sp,
        look,
        soft_max_len: soft_max_len as int,
        split,
    };
    proof {
        chain_model::lemma_written_start(c, h, o0.bits(), !force_nonfinal);
        progress::lemma_progress_start(o0, h, start as int, !force_nonfinal);
        progress::lemma_coded_start(o0.bits(), h, start as int, !force_nonfinal);
    }
    while cur.next < in_end && !os.overflow
        invariant
            h == input@,
            c == (Setup {
                place: old(cur).place(*old(mf)),
                sp: *sp,
                look,
                soft_max_len: soft_max_len as int,
                split,
            }),
            !os.overflow ==> chain_model::written_to(
                c,
                h,
                o0.bits(),
                os.bits(),
                !force_nonfinal,
                cur.place(*mf),
            ),
            !os.overflow && cur.next > start ==> chain_model::last_codes(
                c,
                h,
                o0.bits(),
                os.bits(),
                !force_nonfinal,
                cur.next as int,
                codes.lens_litlen@,
                codes.lens_offset@,
            ),
            os.overflow && !o0.overflow ==> chain_model::spills(
                c,
                h,
                o0.bits(),
                !force_nonfinal,
                o0.buf@.len() as int,
            ),
            os.buf@.len() == o0.buf@.len(),
            in_end == h.len(),
            start == old(cur).next,
            start <= cur.next <= in_end,
            cur.wf(*mf, in_end as int),
            10000 <= soft_max_len <= 4185000,
            static_codes.is_static(),
            sp.max_search_depth >= 4,
            o0 == *old(os),
            fin == final(old(os).buf)@,
            final(os.buf)@ == fin,
            old(codes).bounded() ==> codes.bounded(),
            progress::progress(o0, *os, h, start as int, cur.next as int, !force_nonfinal),
            progress::tight(o0, *os, h, start as int, cur.next as int),
            !os.overflow ==> progress::coded(
                o0.bits(),
                os.bits(),
                h,
                start as int,
                cur.next as int,
                !force_nonfinal,
            ),
        decreases in_end - cur.next,
    {
        match stop.check() {
            Ok(_) => {},
            Err(e) => {
                return Err(CompressionError::Stopped(e));
            },
        }
        let block_begin: usize = cur.next;
        let ghost p = cur.place(*mf);
        let max_block_end: usize = choose_max_block_end(block_begin, in_end, soft_max_len);
        parse_block(mf, cur, out, input, max_block_end, sp, look, split);
        let ghost w = out.work(cur.place(*mf));
        let is_final: bool = !force_nonfinal && cur.next >= in_end;
        let ghost o1 = *os;
        finish_block(
            os,
            input,
            block_begin,
            cur.next - block_begin,
            &out.seqs,
            &mut out.freqs,
            codes,
            static_codes,
            is_final,
        );
        proof {
            progress::lemma_progress_block(
                o0,
                o1,
                *os,
                h,
                start as int,
                block_begin as int,
                cur.next - block_begin,
                sequences::items_of(out.seqs@),
                !force_nonfinal,
            );
            progress::lemma_tight_block(
                o0,
                o1,
                *os,
                h,
                start as int,
                block_begin as int,
                cur.next - block_begin,
                sequences::items_of(out.seqs@),
                is_final,
            );
            if !os.overflow {
                chain_model::lemma_written_step(
                    c,
                    h,
                    o0.bits(),
                    o1.bits(),
                    os.bits(),
                    !force_nonfinal,
                    p,
                    w,
                );
                assert(block::codes_for(
                    h,
                    p.next,
                    w.its,
                    codes.lens_litlen@,
                    codes.lens_offset@,
                ));
                progress::lemma_coded_step(
                    o0.bits(),
                    o1.bits(),
                    os.bits(),
                    h,
                    start as int,
                    block_begin as int,
                    cur.next - block_begin,
                    !force_nonfinal,
                );
            } else {
                reveal(block::misfits);
                reveal(chain_model::written_to);
                reveal(chain_model::spills);
                let b1 = choose|b1: Seq<bool>|
                    #[trigger] block::coded_with(
                        o1.bits(),
                        b1,
                        h,
                        block_begin as int,
                        cur.next - block_begin,
                        sequences::items_of(out.seqs@),
                        is_final,
                        true,
                    ) && block::too_long(b1, o1.buf@.len() as int);
                chain_model::lemma_written_step(
                    c,
                    h,
                    o0.bits(),
                    o1.bits(),
                    b1,
                    !force_nonfinal,
                    p,
                    w,
                );
            }
        }
    }
    Ok(())
}

/// Compress the input from `chunk_start` on; what comes before it may be matched.
pub fn compress_chained<S: Stop>(
    mf: &mut HcMatchfinder,
    os: &mut OutputBitstream<'_>,
    input: &[u8],
    chunk_start: usize,
    force_nonfinal: bool,
    sp: &SearchParams,
    look: Lookahead,
    out: &mut Parse,
    codes: &mut DeflateCodes,
    static_codes: &DeflateCodes,
    stop: &S,
) -> (r: Result<(), CompressionError>)
    requires
        valid(*old(mf)),
        old(os).flushed(),
        chunk_start < input@.len(),
        static_codes.is_static(),
        sp.max_search_depth >= 4,
    ensures
        valid(*final(mf)),
        final(os).flushed(),
        final(os).buf@.len() == old(os).buf@.len(),
        final(final(os).buf)@ == final(old(os).buf)@,
        old(codes).bounded() ==> final(codes).bounded(),
        r is Ok ==> progress::progress(
            *old(os),
            *final(os),
            input@,
            chunk_start as int,
            input@.len() as int,
            !force_nonfinal,
        ),
        r is Ok ==> progress::tight(
            *old(os),
            *final(os),
            input@,
            chunk_start as int,
            input@.len() as int,
        ),
        r is Ok && !final(os).overflow ==> progress::coded(
            old(os).bits(),
            final(os).bits(),
            input@,
            chunk_start as int,
            input@.len() as int,
            !force_nonfinal,
        ),
        r is Ok && !final(os).overflow ==> chain_model::chain_coded(
            chain_model::setup_at(input@, chunk_start as int, *sp, look),
            input@,
            old(os).bits(),
            final(os).bits(),
            !force_nonfinal,
        ),
        r is Ok && final(os).overflow && !old(os).overflow ==> chain_model::spills(
            chain_model::setup_at(input@, chunk_start as int, *sp, look),
            input@,
            old(os).bits(),
            !force_nonfinal,
            old(os).buf@.len() as int,
        ),
        r matches Err(e) ==> e is Stopped && !stop.never_stops(),
{
    mf.init();
    let dict_start: usize = dictionary_start(chunk_start);
    let mut cur: Cursor = Cursor::new(dict_start, dict_start, sp.nice_match_length);
    assert(mf.wf(dict_start as int, dict_start as int));
    assert(cur.place(*mf) == chain_model::fresh_place(
        dict_start as int,
        sp.nice_match_length as int,
    ));
    if chunk_start > 0 {
        cur.skip(mf, input, (chunk_start - dict_start) as u32);
    }
    compress_blocks(
        mf,
        &mut cur,
        os,
        input,
        force_nonfinal,
        sp,
        look,
        SOFT_MAX_BLOCK_LENGTH,
        true,
        out,
        codes,
        static_codes,
        stop,
    )
}

} // verus!
