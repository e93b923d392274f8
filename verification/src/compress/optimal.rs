//! Near-optimal compression: find all matches of a block, then the cheapest way
//! through them.

use crate::arith::min_u32;
use crate::compress::bitstream::OutputBitstream;
use crate::compress::block;
use crate::compress::block::{DeflateCodes, DeflateFreqs};
use crate::compress::block_split::BlockSplitStats;
use crate::compress::chains::SearchParams;
use crate::compress::costs;
use crate::compress::near_model;
use crate::compress::near_model::{Fill, Near, Tuning};
use crate::compress::near_optimal;
use crate::compress::near_optimal::{NearOptimalState, MATCH_CACHE_LENGTH};
use crate::compress::near_tight;
use crate::compress::optimal_model;
use crate::compress::optimal_model::{Scan, Spot};
use crate::compress::params::{adjust_max_and_nice_len, calculate_min_match_len};
use crate::compress::progress;
use crate::compress::progress::{choose_max_block_end, dictionary_start, SOFT_MAX_BLOCK_LENGTH};
use crate::error::CompressionError;
use crate::matchfinder::bt;
use crate::matchfinder::bt::{BtMatchfinder, LzMatch, BT_MATCHFINDER_REQUIRED_NBYTES};
use crate::stop::Stop;
use vstd::prelude::*;

verus! {

/// The state has a matchfinder in some valid state.
pub open spec fn valid(ns: NearOptimalState) -> bool {
    &&& ns.wf()
    &&& exists|b: int, n: int| ns.bt_mf.wf(b, n)
}

/// A block that leaves a short rest is long, or takes less room than its bytes.
///
/// A block ends where the cache of matches is full. Where searches go deep, that may be
/// soon; there are so many matches then that little is to be written, which the static codes
/// show where they are tried.
pub open spec fn fills(depth: int, t: Tuning) -> bool {
    depth <= 148 || (t.static_len >= 10000 && 0 <= t.min_gain && t.min_return <= 1000)
}

/// A position in the input with what a search there needs.
struct Cursor {
    /// The next position.
    next: usize,
    /// The base of the matchfinder's entries.
    base: usize,
    /// The longest match to look for.
    max_len: u32,
    /// A match this long ends a search.
    nice_len: u32,
    /// The hashes at the next position.
    hashes: [u32; 2],
}

impl Cursor {
    /// The cursor and the matchfinder fit the input.
    spec fn wf(&self, mf: BtMatchfinder, len: int) -> bool {
        &&& self.next <= len
        &&& self.base <= self.next
        &&& self.next - self.base <= 32768
        &&& self.nice_len <= self.max_len <= 258
        &&& self.hashes@[0] < 65536
        &&& self.hashes@[1] < 65536
        &&& mf.wf(self.base as int, self.next as int)
    }

    /// The position and the tables there.
    spec fn spot(&self, mf: BtMatchfinder) -> Spot {
        Spot {
            tabs: mf.tabs(),
            base: self.base as int,
            next: self.next as int,
            max_len: self.max_len as int,
            nice_len: self.nice_len as int,
            hash3: self.hashes@[0] as int,
            hash4: self.hashes@[1] as int,
        }
    }

    /// Bring the window and the lengths up to the position.
    fn settle(&mut self, mf: &mut BtMatchfinder, input: &[u8])
        requires
            old(self).wf(*old(mf), input@.len() as int),
        ensures
            final(self).wf(*final(mf), input@.len() as int),
            final(self).next == old(self).next,
            final(self).next - final(self).base < 32768,
            final(self).next + final(self).max_len <= input@.len(),
            final(self).spot(*final(mf)) == optimal_model::settled(
                old(self).spot(*old(mf)),
                input@,
            ),
    {
        if self.next - self.base >= 32768 {
            mf.slide_window();
            self.base = self.base + 32768;
        }
        adjust_max_and_nice_len(&mut self.max_len, &mut self.nice_len, input.len() - self.next);
    }

    /// Enter the position without looking for matches, and move on by one.
    fn enter(&mut self, mf: &mut BtMatchfinder, input: &[u8], depth: u32)
        requires
            old(self).wf(*old(mf), input@.len() as int),
            old(self).next < input@.len(),
            depth > 0,
        ensures
            final(self).wf(*final(mf), input@.len() as int),
            final(self).next == old(self).next + 1,
            final(self).spot(*final(mf)) == optimal_model::after_enter(
                old(self).spot(*old(mf)),
                input@,
                depth as int,
            ),
    {
        let total: usize = input.len();
        self.settle(mf, input);
        if self.max_len >= BT_MATCHFINDER_REQUIRED_NBYTES {
            mf.skip_byte(
                input,
                self.base,
                (self.next - self.base) as u32,
                self.nice_len,
                depth,
                &mut self.hashes,
            );
        }
        self.next = self.next + 1;
    }

    /// Find the matches at the position, put them in the cache, and move on by one.
    /// Returns the length of the longest match, or 0.
    fn find(
        &mut self,
        mf: &mut BtMatchfinder,
        input: &[u8],
        depth: u32,
        cache: &mut Vec<LzMatch>,
        begin: Ghost<int>,
    ) -> (best: u32)
        requires
            old(self).wf(*old(mf), input@.len() as int),
            begin@ <= old(self).next < input@.len(),
            old(self).next - begin@ <= 305258,
            depth > 0,
            near_optimal::cache_ok(input@, begin@, old(self).next as int, old(cache)@),
        ensures
            final(self).wf(*final(mf), input@.len() as int),
            final(self).next == old(self).next + 1,
            near_optimal::cache_ok(input@, begin@, final(self).next as int, final(cache)@),
            near_optimal::sparse(old(cache)@, old(self).next - begin@, depth + 1)
                ==> near_optimal::sparse(final(cache)@, final(self).next - begin@, depth + 1),
            best <= 258,
            old(self).next + best <= input@.len(),
            final(self).spot(*final(mf)) == optimal_model::after_find(
                old(self).spot(*old(mf)),
                input@,
                depth as int,
            ),
            ({
                let ms = optimal_model::found(old(self).spot(*old(mf)), input@, depth as int);
                &&& best == optimal_model::longest(ms)
                &&& final(cache)@ == old(cache)@ + optimal_model::entries(
                    ms,
                    input@[old(self).next as int],
                )
            }),
    {
        let ghost h = input@;
        let ghost p = self.next as int;
        let ghost c0 = cache@;
        let lit: u8 = input[self.next];
        proof {
            near_optimal::lemma_cache_len(h, begin@, p, c0);
        }
        self.settle(mf, input);
        let mut best: u32 = 0;
        let mut count: usize = 0;
        if self.max_len >= BT_MATCHFINDER_REQUIRED_NBYTES {
            count =
            mf.get_matches(
                input,
                self.base,
                (self.next - self.base) as u32,
                self.max_len,
                self.nice_len,
                depth,
                &mut self.hashes,
                cache,
            );
            proof {
                let ms = bt::pairs(cache@.skip(c0.len() as int));
                if count > 0 {
                    assert(ms.last() == ms[ms.len() - 1]);
                    assert(ms[ms.len() - 1].0 == cache@.last().length);
                }
            }
            if count > 0 {
                best = cache[cache.len() - 1].length as u32;
            }
        }
        let ghost c1 = cache@;
        let ghost all = optimal_model::found(old(self).spot(*old(mf)), h, depth as int);
        proof {
            assert(bt::pairs(c1.skip(c0.len() as int)) =~= all);
            assert forall|k: int| 0 <= k < all.len() implies c1[c0.len() + k] == (LzMatch {
                length: (#[trigger] all[k]).0 as u16,
                offset: all[k].1 as u16,
            }) by {
                assert(bt::pairs(c1.skip(c0.len() as int))[k] == all[k]);
            }
        }
        cache.push(LzMatch { length: count as u16, offset: lit as u16 });
        assert(cache@ =~= c0 + optimal_model::entries(all, lit));
        self.next = self.next + 1;
        proof {
            let ms = bt::pairs(c1.skip(c0.len() as int));
            assert(cache@.subrange(c0.len() as int, cache@.len() - 1) =~= c1.skip(c0.len() as int));
            assert(cache@.take(c0.len() as int) =~= c0) by {
                assert(c1.take(c0.len() as int) =~= c0);
            }
            assert(bt::matches_ok(h, p, 258, ms)) by {
                assert forall|k: int| 0 <= k < ms.len() implies {
                    &&& 3 <= (#[trigger] ms[k]).0 <= 258
                    &&& 1 <= ms[k].1 < 32768
                    &&& crate::compress::items::is_match(h, p, ms[k].0, ms[k].1)
                } by {}
            }
            near_optimal::lemma_cache_push(h, begin@, p, c0, cache@);
            if near_optimal::sparse(c0, p - begin@, depth + 1) {
                near_optimal::lemma_sparse_push(c0, cache@, p - begin@, depth + 1);
            }
        }
        best
    }

    /// Enter the position, put only its byte in the cache, and move on by one.
    fn pass(
        &mut self,
        mf: &mut BtMatchfinder,
        input: &[u8],
        depth: u32,
        cache: &mut Vec<LzMatch>,
        begin: Ghost<int>,
    )
        requires
            old(self).wf(*old(mf), input@.len() as int),
            begin@ <= old(self).next < input@.len(),
            depth > 0,
            near_optimal::cache_ok(input@, begin@, old(self).next as int, old(cache)@),
        ensures
            final(self).wf(*final(mf), input@.len() as int),
            final(self).next == old(self).next + 1,
            near_optimal::cache_ok(input@, begin@, final(self).next as int, final(cache)@),
            near_optimal::sparse(old(cache)@, old(self).next - begin@, depth + 1)
                ==> near_optimal::sparse(final(cache)@, final(self).next - begin@, depth + 1),
            final(self).spot(*final(mf)) == optimal_model::after_enter(
                old(self).spot(*old(mf)),
                input@,
                depth as int,
            ),
            final(cache)@ == old(cache)@.push(
                LzMatch { length: 0, offset: input@[old(self).next as int] as u16 },
            ),
    {
        let ghost p = self.next as int;
        let ghost c0 = cache@;
        let lit: u8 = input[self.next];
        self.enter(mf, input, depth);
        cache.push(LzMatch { length: 0, offset: lit as u16 });
        proof {
            assert(bt::pairs(cache@.subrange(c0.len() as int, cache@.len() - 1)) =~= Seq::empty());
            assert(cache@.take(c0.len() as int) =~= c0);
            near_optimal::lemma_cache_push(input@, begin@, p, c0, cache@);
            if near_optimal::sparse(c0, p - begin@, depth + 1) {
                near_optimal::lemma_sparse_push(c0, cache@, p - begin@, depth + 1);
            }
        }
    }
}

/// Find the matches at the position and put them in the cache; skip the bytes that a
/// match of the nice length covers. Returns the length of the longest match, or 0.
fn look(
    mf: &mut BtMatchfinder,
    cur: &mut Cursor,
    input: &[u8],
    depth: u32,
    cache: &mut Vec<LzMatch>,
    begin: Ghost<int>,
) -> (best_len: u32)
    requires
        old(cur).wf(*old(mf), input@.len() as int),
        begin@ <= old(cur).next < input@.len(),
        old(cur).next - begin@ <= 305258,
        depth > 0,
        near_optimal::cache_ok(input@, begin@, old(cur).next as int, old(cache)@),
    ensures
        final(cur).wf(*final(mf), input@.len() as int),
        old(cur).next < final(cur).next,
        final(cur).next <= old(cur).next + 258,
        near_optimal::cache_ok(input@, begin@, final(cur).next as int, final(cache)@),
        near_optimal::sparse(old(cache)@, old(cur).next - begin@, depth + 1)
            ==> near_optimal::sparse(final(cache)@, final(cur).next - begin@, depth + 1),
        best_len <= 258,
        old(cur).next + best_len <= input@.len(),
        best_len == optimal_model::longest(
            optimal_model::found(old(cur).spot(*old(mf)), input@, depth as int),
        ),
        (Scan {
            spot: final(cur).spot(*final(mf)),
            cache: final(cache)@,
        }) == optimal_model::scan_step(
            Scan { spot: old(cur).spot(*old(mf)), cache: old(cache)@ },
            input@,
            depth as int,
        ),
{
    reveal(optimal_model::scan_step);
    let ghost h = input@;
    let ghost s0 = Scan { spot: cur.spot(*mf), cache: cache@ };
    let in_end: usize = input.len();
    let p: usize = cur.next;
    let best_len: u32 = cur.find(mf, input, depth, cache, begin);
    let ghost s1 = Scan { spot: cur.spot(*mf), cache: cache@ };
    assert(s1 =~= optimal_model::scan_one(s0, h, depth as int));
    if best_len >= 3 && best_len >= cur.nice_len {
        let end: usize = p + best_len as usize;
        assert(s1.cache =~= s1.cache + optimal_model::bare_entries(h, p + 1, p + 1));
        while cur.next < end
            invariant
                h == input@,
                in_end == h.len(),
                end <= in_end,
                p < cur.next <= end,
                begin@ <= p,
                cur.wf(*mf, in_end as int),
                near_optimal::cache_ok(h, begin@, cur.next as int, cache@),
                near_optimal::sparse(old(cache)@, old(cur).next - begin@, depth + 1)
                    ==> near_optimal::sparse(cache@, cur.next - begin@, depth + 1),
                depth > 0,
                optimal_model::entered_to(s1.spot, h, depth as int, end as int)
                    == optimal_model::entered_to(cur.spot(*mf), h, depth as int, end as int),
                cache@ == s1.cache + optimal_model::bare_entries(
                    h,
                    p + 1,
                    cur.next as int,
                ),
            decreases end - cur.next,
        {
            let ghost c0 = cache@;
            let ghost q = cur.next as int;
            cur.pass(mf, input, depth, cache, begin);
            proof {
                assert(optimal_model::bare_entries(h, p + 1, q + 1)
                    =~= optimal_model::bare_entries(h, p + 1, q).push(cache@.last()));
                assert(cache@ =~= c0.push(cache@.last()));
            }
        }
    }
    best_len
}

/// How a block came to its end.
struct BlockEnd {
    /// Where the observations were last found not to differ, if the data changed
    /// behind it.
    rewind_to: Option<usize>,
}

/// A position, if there is one.
spec fn place(at: Option<usize>) -> Option<int> {
    match at {
        Some(p) => Some(p as int),
        None => None,
    }
}

/// The block as far as it is filled.
spec fn fill_at(
    ns: NearOptimalState,
    cur: Cursor,
    split_stats: BlockSplitStats,
    watch: int,
    checked: Option<int>,
) -> Fill {
    Fill {
        spot: cur.spot(ns.bt_mf),
        cache: ns.match_cache@,
        o: split_stats.observed(),
        lens: ns.match_len_freqs@,
        recent: ns.new_match_len_freqs@,
        watch,
        checked,
    }
}

/// What there is between two blocks.
spec fn near_at(
    ns: NearOptimalState,
    cur: Cursor,
    split_stats: BlockSplitStats,
    begin: int,
    only_literals: bool,
) -> Near {
    Near {
        spot: cur.spot(ns.bt_mf),
        cache: ns.match_cache@,
        begin,
        o: split_stats.observed(),
        lens: ns.match_len_freqs@,
        recent: ns.new_match_len_freqs@,
        prices: ns.costs@,
        prev: costs::type_counts(ns.prev_observations@),
        prev_num: ns.prev_num_observations as int,
        only_literals,
    }
}

/// Find matches until the block is to be ended.
fn fill_block(
    ns: &mut NearOptimalState,
    cur: &mut Cursor,
    input: &[u8],
    begin: usize,
    max_block_end: usize,
    min_len: u32,
    depth: u32,
    split_stats: &mut BlockSplitStats,
) -> (r: BlockEnd)
    requires
        old(ns).wf(),
        old(cur).wf(old(ns).bt_mf, input@.len() as int),
        begin <= old(cur).next < input@.len(),
        old(cur).next - begin <= 300258,
        begin < max_block_end <= input@.len(),
        max_block_end - begin <= 304999,
        near_optimal::cache_ok(
            input@,
            begin as int,
            old(cur).next as int,
            old(ns).match_cache@,
        ),
        near_optimal::sparse(old(ns).match_cache@, old(cur).next - begin, depth + 1),
        old(ns).stats_ok(*old(split_stats)),
        old(split_stats).total() <= old(cur).next - begin,
        depth > 0,
    ensures
        final(ns).wf(),
        final(cur).wf(final(ns).bt_mf, input@.len() as int),
        old(cur).next < final(cur).next,
        final(cur).next - begin <= 305258,
        near_optimal::cache_ok(
            input@,
            begin as int,
            final(cur).next as int,
            final(ns).match_cache@,
        ),
        near_optimal::sparse(final(ns).match_cache@, final(cur).next - begin, depth + 1),
        final(ns).stats_ok(*final(split_stats)),
        final(split_stats).total() <= final(cur).next - begin,
        final(cur).next >= max_block_end || final(cur).next - begin >= 5000,
        final(cur).next >= max_block_end || input@.len() - final(cur).next >= 5000
            || final(cur).next - begin >= 10000 || (depth > 148 && r.rewind_to is None
            && final(ns).match_cache@.len() >= 1500000),
        r.rewind_to matches Some(at) ==> {
            &&& begin + 5000 <= at < final(cur).next < input@.len()
            &&& input@.len() - at >= 5000
            &&& final(split_stats).num_new_observations <= final(cur).next - at
        },
        final(ns).unfilled(*old(ns)),
        ({
            let (f, end) = near_model::filled(
                fill_at(*old(ns), *old(cur), *old(split_stats), old(cur).next as int, None),
                input@,
                begin as int,
                max_block_end as int,
                min_len as int,
                depth as int,
            );
            &&& end == place(r.rewind_to)
            &&& fill_at(*final(ns), *final(cur), *final(split_stats), f.watch, f.checked) == f
        }),
{
    let ghost goal = near_model::filled(
        fill_at(*ns, *cur, *split_stats, cur.next as int, None),
        input@,
        begin as int,
        max_block_end as int,
        min_len as int,
        depth as int,
    );
    let in_end: usize = input.len();
    let mut checked: Option<usize> = None;
    let mut next_observation: usize = cur.next;
    let ghost mut chk: int = begin as int;
    loop
        invariant
            in_end == input@.len(),
            ns.unfilled(*old(ns)),
            goal == near_model::filled(
                fill_at(*old(ns), *old(cur), *old(split_stats), old(cur).next as int, None),
                input@,
                begin as int,
                max_block_end as int,
                min_len as int,
                depth as int,
            ),
            goal == near_model::filled(
                fill_at(*ns, *cur, *split_stats, next_observation as int, place(checked)),
                input@,
                begin as int,
                max_block_end as int,
                min_len as int,
                depth as int,
            ),
            ns.wf(),
            cur.wf(ns.bt_mf, in_end as int),
            begin <= old(cur).next <= cur.next < in_end,
            begin < max_block_end <= in_end,
            max_block_end - begin <= 304999,
            cur.next - begin <= 304999,
            cur.next - begin <= 300258 || cur.next < max_block_end,
            near_optimal::cache_ok(input@, begin as int, cur.next as int, ns.match_cache@),
            near_optimal::sparse(ns.match_cache@, cur.next - begin, depth + 1),
            ns.stats_ok(*split_stats),
            split_stats.total() <= cur.next - begin,
            split_stats.num_new_observations <= cur.next - chk,
            begin <= chk <= cur.next,
            checked matches Some(at) ==> at == chk && begin + 5000 <= at,
            depth > 0,
        decreases in_end - cur.next,
    {
        let p: usize = cur.next;
        let ghost f0 = fill_at(*ns, *cur, *split_stats, next_observation as int, place(checked));
        let ghost seen_before = *split_stats;
        let best_len: u32 = look(
            &mut ns.bt_mf,
            cur,
            input,
            depth,
            &mut ns.match_cache,
            Ghost(begin as int),
        );

        // Track observations for block splitting
        if p >= next_observation {
            if best_len >= min_len {
                split_stats.observe_match(best_len);
                next_observation = p + best_len as usize;
                assert(ns.new_match_len_freqs@[best_len as int] <= p - begin);
                let f: u32 = ns.new_match_len_freqs[best_len as usize] + 1;
                ns.new_match_len_freqs.set(best_len as usize, f);
            } else {
                split_stats.observe_literal(input[p]);
                next_observation = p + 1;
            }
        }

        let ghost f1 = fill_at(*ns, *cur, *split_stats, next_observation as int, place(checked));
        proof {
            reveal(near_model::look_on);
            assert(f1 =~= near_model::look_on(f0, input@, min_len as int, depth as int));
        }
        if cur.next >= max_block_end {
            return BlockEnd { rewind_to: None };
        }
        if ns.match_cache.len() >= MATCH_CACHE_LENGTH {
            proof {
                near_optimal::lemma_cache_len(
                    input@,
                    begin as int,
                    cur.next as int,
                    ns.match_cache@,
                );
                near_optimal::lemma_sparse_len(
                    input@,
                    begin as int,
                    cur.next as int,
                    ns.match_cache@,
                    depth + 1,
                );
                if depth <= 148 {
                    let n = cur.next - begin;
                    assert((depth + 2) * n <= 150 * n) by (nonlinear_arith)
                        requires
                            depth <= 148,
                            0 <= n,
                    ;
                }
            }
            return BlockEnd { rewind_to: None };
        }
        if split_stats.ready_to_check(begin, cur.next, in_end) {
            let ghost s0 = *split_stats;
            if split_stats.do_end_block_check((cur.next - begin) as u32) {
                return BlockEnd { rewind_to: checked };
            }
            // The observations have been merged; merge the match lengths too
            ns.merge_match_freqs(Ghost(s0));
            checked = Some(cur.next);
            proof {
                chk = cur.next as int;
                assert(fill_at(*ns, *cur, *split_stats, next_observation as int, place(checked))
                    =~= near_model::merged_fill(f1));
            }
        }
    }
}

/// Take away from the end of the cache what belongs to the last `count` positions;
/// returns how many entries are left.
fn rewind_cache(
    cache: &Vec<LzMatch>,
    count: usize,
    h: Ghost<Seq<u8>>,
    begin: Ghost<int>,
    next: Ghost<int>,
) -> (end: usize)
    requires
        near_optimal::cache_ok(h@, begin@, next@, cache@),
        count <= next@ - begin@,
    ensures
        end <= cache@.len(),
        cache@.take(end as int) == near_optimal::rewound(cache@, count as nat),
        end == near_optimal::rewound(cache@, count as nat).len(),
{
    let mut end: usize = cache.len();
    let mut k: usize = 0;
    assert(cache@.take(end as int) =~= cache@);
    while k < count
        invariant
            k <= count,
            count <= next@ - begin@,
            near_optimal::cache_ok(h@, begin@, next@, cache@),
            end <= cache@.len(),
            cache@.take(end as int) == near_optimal::rewound(cache@, k as nat),
        decreases count - k,
    {
        let ghost e = cache@.take(end as int);
        proof {
            near_optimal::lemma_rewound(h@, begin@, next@, cache@, k as nat);
            near_optimal::lemma_rewound_step(cache@, k as nat);
            assert(e.last() == cache@[end - 1]);
        }
        let num: usize = cache[end - 1].length as usize;
        end = end - 1 - num;
        assert(near_optimal::peeled(e) =~= cache@.take(end as int));
        k = k + 1;
    }
    end
}

/// The cache from an entry on.
fn cache_from(cache: &Vec<LzMatch>, from: usize) -> (r: Vec<LzMatch>)
    requires
        from <= cache@.len(),
    ensures
        r@ == cache@.skip(from as int),
{
    let mut r: Vec<LzMatch> = Vec::new();
    let mut k: usize = from;
    while k < cache.len()
        invariant
            from <= k <= cache@.len(),
            r@ == cache@.subrange(from as int, k as int),
        decreases cache@.len() - k,
    {
        r.push(cache[k]);
        k = k + 1;
        assert(r@ =~= cache@.subrange(from as int, k as int));
    }
    assert(r@ =~= cache@.skip(from as int));
    r
}

/// Compress the input from `chunk_start` on; what comes before it may be matched.
#[verifier::spinoff_prover]
#[verifier::rlimit(60)]
pub fn compress_optimal<S: Stop>(
    ns: &mut NearOptimalState,
    os: &mut OutputBitstream<'_>,
    input: &[u8],
    chunk_start: usize,
    force_nonfinal: bool,
    sp: &SearchParams,
    split_stats: &mut BlockSplitStats,
    freqs: &mut DeflateFreqs,
    codes: &mut DeflateCodes,
    static_codes: &DeflateCodes,
    stop: &S,
) -> (r: Result<(), CompressionError>)
    requires
        valid(*old(ns)),
        old(os).flushed(),
        chunk_start < input@.len(),
        static_codes.is_static(),
        sp.max_search_depth > 0,
    ensures
        valid(*final(ns)),
        final(os).flushed(),
        final(os).buf@.len() == old(os).buf@.len(),
        final(final(os).buf)@ == final(old(os).buf)@,
        old(codes).bounded() ==> final(codes).bounded(),
        r is Ok ==> progress::progress(
            *old(os),
            *final(os),
            input@,
            chunk_start as int,
            input@.len() as int,
            !force_nonfinal,
        ),
        r is Ok && fills(sp.max_search_depth as int, old(ns).tuning()) ==> progress::tight(
            *old(os),
            *final(os),
            input@,
            chunk_start as int,
            input@.len() as int,
        ),
        r is Ok && !final(os).overflow ==> progress::coded(
            old(os).bits(),
            final(os).bits(),
            input@,
            chunk_start as int,
            input@.len() as int,
            !force_nonfinal,
        ),
        final(ns).tuning() == old(ns).tuning(),
        r is Ok && !final(os).overflow ==> near_model::near_coded(
            near_model::setup_at(
                input@,
                chunk_start as int,
                sp.nice_match_length as int,
                sp.max_search_depth as int,
                old(ns).tuning(),
                old(ns).memory(),
            ),
            input@,
            old(os).bits(),
            final(os).bits(),
            !force_nonfinal,
        ),
        r is Ok && final(os).overflow && !old(os).overflow ==> near_model::spills(
            near_model::setup_at(
                input@,
                chunk_start as int,
                sp.nice_match_length as int,
                sp.max_search_depth as int,
                old(ns).tuning(),
                old(ns).memory(),
            ),
            input@,
            old(os).bits(),
            !force_nonfinal,
            old(os).buf@.len() as int,
        ),
        r matches Err(e) ==> e is Stopped && !stop.never_stops(),
{
    let in_end: usize = input.len();
    let depth: u32 = sp.max_search_depth;
    let ghost o0 = *os;
    let ghost fin = final(os.buf)@;
    let ghost h = input@;
    ns.bt_mf.init();
    ns.match_cache.clear();
    let dict_start: usize = dictionary_start(chunk_start);
    let mut cur: Cursor = Cursor {
        next: dict_start,
        base: dict_start,
        max_len: 258,
        nice_len: min_u32(258, sp.nice_match_length),
        hashes: [0u32; 2],
    };
    assert(ns.bt_mf.wf(dict_start as int, dict_start as int));
    let ghost fresh = cur.spot(ns.bt_mf);
    while cur.next < chunk_start
        invariant
            optimal_model::entered_to(fresh, input@, depth as int, chunk_start as int)
                == optimal_model::entered_to(
                cur.spot(ns.bt_mf),
                input@,
                depth as int,
                chunk_start as int,
            ),
            in_end == input@.len(),
            cur.next <= chunk_start < in_end,
            ns.wf(),
            cur.wf(ns.bt_mf, in_end as int),
            ns.match_cache@.len() == 0,
            ns.tuning() == old(ns).tuning(),
            ns.memory() == old(ns).memory(),
            depth > 0,
        decreases chunk_start - cur.next,
    {
        cur.enter(&mut ns.bt_mf, input, depth);
    }
    cur.max_len = 258;
    cur.nice_len = min_u32(258, sp.nice_match_length);
    ns.init_stats(split_stats);
    let mut begin: usize = chunk_start;
    let mut only_literals: bool = false;
    let ghost setup = near_model::setup_at(
        h,
        chunk_start as int,
        sp.nice_match_length as int,
        depth as int,
        old(ns).tuning(),
        old(ns).memory(),
    );
    let ghost mut st: Near = setup.first;
    proof {
        assert(ns.match_cache@ =~= Seq::empty());
        assert(near_at(*ns, cur, *split_stats, begin as int, only_literals) =~= st);
        near_model::lemma_written_start(setup, h, o0.bits(), !force_nonfinal);
        progress::lemma_progress_start(o0, h, chunk_start as int, !force_nonfinal);
        progress::lemma_coded_start(o0.bits(), h, chunk_start as int, !force_nonfinal);
    }
    while begin < in_end && !os.overflow
        invariant
            h == input@,
            in_end == h.len(),
            setup.depth == depth,
            setup.tuning == old(ns).tuning(),
            ns.tuning() == old(ns).tuning(),
            st == near_at(*ns, cur, *split_stats, begin as int, only_literals),
            !os.overflow ==> near_model::written_to(
                setup,
                h,
                o0.bits(),
                os.bits(),
                !force_nonfinal,
                st,
            ),
            os.overflow && !o0.overflow ==> near_model::spills(
                setup,
                h,
                o0.bits(),
                !force_nonfinal,
                o0.buf@.len() as int,
            ),
            os.buf@.len() == o0.buf@.len(),
            chunk_start <= begin <= cur.next <= in_end,
            begin < in_end ==> cur.next < in_end,
            cur.next - begin <= 300258,
            ns.wf(),
            cur.wf(ns.bt_mf, in_end as int),
            near_optimal::cache_ok(h, begin as int, cur.next as int, ns.match_cache@),
            near_optimal::sparse(ns.match_cache@, cur.next - begin, depth + 1),
            depth == sp.max_search_depth,
            fills(depth as int, setup.tuning) ==> progress::tight(
                o0,
                *os,
                h,
                chunk_start as int,
                begin as int,
            ),
            ns.stats_ok(*split_stats),
            split_stats.total() <= cur.next - begin,
            static_codes.is_static(),
            depth > 0,
            o0 == *old(os),
            fin == final(old(os).buf)@,
            final(os.buf)@ == fin,
            old(codes).bounded() ==> codes.bounded(),
            progress::progress(o0, *os, h, chunk_start as int, begin as int, !force_nonfinal),
            !os.overflow ==> progress::coded(
                o0.bits(),
                os.bits(),
                h,
                chunk_start as int,
                begin as int,
                !force_nonfinal,
            ),
        decreases in_end - begin,
    {
        match stop.check() {
            Ok(_) => {},
            Err(e) => {
                return Err(CompressionError::Stopped(e));
            },
        }
        let max_block_end: usize = choose_max_block_end(begin, in_end, SOFT_MAX_BLOCK_LENGTH);
        let min_len: u32 = if only_literals {
            259
        } else {
            calculate_min_match_len(input, begin, max_block_end, depth)
        };
        let ended: BlockEnd = fill_block(
            ns,
            &mut cur,
            input,
            begin,
            max_block_end,
            min_len,
            depth,
            split_stats,
        );
        let ghost (f, end) = near_model::next_fill(st, h, depth as int);
        let is_first: bool = begin == 0;
        let block_end: usize = match ended.rewind_to {
            Some(at) => at,
            None => cur.next,
        };
        let n: usize = block_end - begin;
        let ghost cache = ns.match_cache@;
        let cache_end: usize = rewind_cache(
            &ns.match_cache,
            cur.next - block_end,
            Ghost(h),
            Ghost(begin as int),
            Ghost(cur.next as int),
        );
        proof {
            near_optimal::lemma_rewound(
                h,
                begin as int,
                cur.next as int,
                cache,
                (cur.next - block_end) as nat,
            );
            near_optimal::lemma_sparse_rewound(
                h,
                begin as int,
                cur.next as int,
                cache,
                (cur.next - block_end) as nat,
                depth + 1,
            );
        }
        let rewinding: bool = match ended.rewind_to {
            Some(at) => true,
            None => false,
        };
        if !rewinding {
            ns.merge_stats(split_stats);
        }
        let is_final: bool = !force_nonfinal && block_end == in_end;
        let ghost o1 = *os;
        only_literals =
        ns.optimize_and_flush_block(
            os,
            input,
            begin,
            n,
            cache_end,
            is_first,
            is_final,
            freqs,
            codes,
            static_codes,
            split_stats,
            depth,
        );
        proof {
            let c = cache.take(cache_end as int);
            let chosen = near_model::next_chosen(st, h, depth as int, setup.tuning, f, end);
            let its = chosen.its;
            progress::lemma_progress_block(
                o0,
                o1,
                *os,
                h,
                chunk_start as int,
                begin as int,
                n as int,
                its,
                !force_nonfinal,
            );
            if fills(depth as int, setup.tuning) {
                if 0 < in_end - block_end < 5000 && n < 10000 {
                    near_tight::lemma_tight_full(
                        o0,
                        o1,
                        *os,
                        h,
                        chunk_start as int,
                        st,
                        depth as int,
                        setup.tuning,
                        f,
                        n as int,
                        is_final,
                    );
                } else {
                    progress::lemma_tight_block(
                        o0,
                        o1,
                        *os,
                        h,
                        chunk_start as int,
                        begin as int,
                        n as int,
                        its,
                        is_final,
                    );
                }
            }
            if !os.overflow {
                progress::lemma_coded_step(
                    o0.bits(),
                    o1.bits(),
                    os.bits(),
                    h,
                    chunk_start as int,
                    begin as int,
                    n as int,
                    !force_nonfinal,
                );
            }
        }
        let rest: Vec<LzMatch> = cache_from(&ns.match_cache, cache_end);
        ns.match_cache = rest;
        ns.save_stats(split_stats);
        if rewinding {
            ns.clear_old_stats(split_stats);
        } else {
            ns.init_stats(split_stats);
        }
        begin = block_end;
        proof {
            let next = near_model::near_block(st, h, depth as int, setup.tuning).0;
            assert(next =~= near_at(*ns, cur, *split_stats, begin as int, only_literals));
            if !os.overflow {
                near_model::lemma_written_step(
                    setup,
                    h,
                    o0.bits(),
                    o1.bits(),
                    os.bits(),
                    !force_nonfinal,
                    st,
                );
            } else {
                near_model::lemma_spills(
                    setup,
                    h,
                    o0.bits(),
                    o1.bits(),
                    !force_nonfinal,
                    o0.buf@.len() as int,
                    st,
                );
            }
            st = next;
        }
    }
    Ok(())
}

} // verus!
