//! The matches of a block, position by position and round by round.

use crate::compress::full_optimal::cache;
use crate::compress::full_optimal::cache::{find_longest_match, LongestMatch, MatchCache};
use crate::compress::full_optimal::chain;
use crate::compress::full_optimal::chain::{Chains, ZopfliHash, MAX_MATCH, WINDOW_SIZE};
use crate::compress::full_optimal::search;
use crate::compress::full_optimal::store::enter_until;
use crate::compress::items;
use vstd::prelude::*;
use vstd::slice::slice_subrange;

verus! {

/// What there is at the next position.
#[derive(Debug, Clone, Copy)]
pub struct Step {
    /// How many positions before this one were passed over in a long run of equal bytes;
    /// each of them starts a match of the greatest length with the byte before it.
    pub run: usize,
    /// The position.
    pub pos: usize,
    /// The length of the longest match there.
    pub length: u16,
}

/// The chains at the start of a round: those of the window before the block.
pub open spec fn begun(a: Seq<u8>, start: int) -> Chains {
    let ws = if start > 32768 {
        start - 32768
    } else {
        0
    };
    if ws < a.len() {
        Chains::fresh().warmed(a, ws).entered(a, ws, start)
    } else {
        Chains::fresh().entered(a, ws, start)
    }
}

/// The position lies in a run of equal bytes that is so long that all of its matches are
/// known.
pub open spec fn in_run(c: Chains, a: Seq<u8>, start: int, i: int) -> bool {
    &&& c.same[i % 32768] > 2 * 258
    &&& i - start > 258 + 1
    &&& a.len() - i > 2 * 258 + 1
    &&& c.same[(i - 258) % 32768] > 258
}

/// Finds the matches of the positions of a block, in order, once in each round. The first
/// round searches the chains, the others use what it found.
pub struct Finder<'a> {
    arr: &'a [u8],
    instart: usize,
    windowstart: usize,
    lmc: MatchCache,
    h: ZopfliHash,
    /// The nearest distance for each length at the last position.
    sublen: Vec<u16>,
    /// The next position.
    next: usize,
    /// The chains are searched in this round.
    hashing: bool,
    /// All positions before the next one have been looked at in this round.
    thorough: bool,
}

/// Positions entered one behind the other.
proof fn lemma_entered(c: Chains, a: Seq<u8>, from: int, mid: int, to: int)
    requires
        from <= mid <= to,
    ensures
        c.entered(a, from, mid).entered(a, mid, to) == c.entered(a, from, to),
    decreases to - mid,
{
    if mid < to {
        lemma_entered(c, a, from, mid, to - 1);
    }
}

impl<'a> Finder<'a> {
    /// The data up to the end of the block.
    pub closed spec fn data(&self) -> Seq<u8> {
        self.arr@
    }

    /// Where the block starts.
    pub closed spec fn start(&self) -> int {
        self.instart as int
    }

    /// The next position.
    pub closed spec fn pos(&self) -> int {
        self.next as int
    }

    /// The nearest distance for each length at the last position.
    pub closed spec fn dists(&self) -> Seq<u16> {
        self.sublen@
    }

    /// What the chains hold.
    pub closed spec fn links(&self) -> Chains {
        self.h@
    }

    /// What the cache holds.
    pub closed spec fn kept(&self) -> MatchCache {
        self.lmc
    }

    /// The chains are searched in this round.
    pub closed spec fn searching(&self) -> bool {
        self.hashing
    }

    /// All positions before the next one have been looked at in this round.
    pub closed spec fn complete(&self) -> bool {
        self.thorough
    }

    /// The longest matches of all positions before `k` are in the cache.
    spec fn cached(&self, k: int) -> bool {
        forall|i: int|
            0 <= i < k - self.instart && i + 3 <= self.arr@.len() - self.instart
                ==> #[trigger] self.lmc.available(i)
    }

    /// The cache holds matches of the block, and the chains hold what they need.
    pub closed spec fn wf(&self) -> bool {
        &&& self.instart <= self.next <= self.arr@.len()
        &&& self.windowstart == if self.instart > 32768 {
            self.instart - 32768
        } else {
            0
        }
        &&& self.lmc.wf(self.arr@, self.instart as int)
        &&& self.instart + self.lmc.length@.len() == self.arr@.len()
        &&& self.sublen@.len() >= 259
        &&& self.hashing ==> self.h.knows(self.arr@, self.windowstart as int, self.next as int)
        &&& !self.hashing ==> self.lmc.sublen_complete && self.cached(self.arr@.len() as int)
        &&& self.thorough ==> self.cached(self.next as int)
    }

    /// A finder for the block of the data from `instart` to `inend`.
    pub fn new(in_data: &'a [u8], instart: usize, inend: usize) -> (r: Self)
        requires
            instart <= inend <= in_data@.len(),
        ensures
            r.wf(),
            r.data() == in_data@.subrange(0, inend as int),
            r.start() == instart,
            r.pos() == inend,
            r.searching(),
            !r.complete(),
            forall|i: int| 0 <= i < inend - instart ==> !#[trigger] r.kept().available(i),
    {
        let windowstart: usize = if instart > WINDOW_SIZE {
            instart - WINDOW_SIZE
        } else {
            0
        };
        let arr: &'a [u8] = slice_subrange(in_data, 0, inend);
        let mut h: ZopfliHash = ZopfliHash::new();
        proof {
            assert(h.knows(arr@, windowstart as int, windowstart as int));
        }
        enter_until(&mut h, arr, windowstart, inend, Ghost(windowstart as int));
        let lmc: MatchCache = MatchCache::new(inend - instart);
        proof {
            assert(lmc.wf(arr@, instart as int));
        }
        Finder {
            arr,
            instart,
            windowstart,
            lmc,
            h,
            sublen: vec![0u16; 259],
            next: inend,
            hashing: true,
            thorough: false,
        }
    }

    /// Start a round. The chains are built anew, unless the last round has put all that
    /// is needed into the cache.
    pub fn begin(&mut self)
        requires
            old(self).wf(),
        ensures
            final(self).wf(),
            final(self).data() == old(self).data(),
            final(self).start() == old(self).start(),
            final(self).pos() == final(self).start(),
            final(self).kept() == old(self).kept(),
            final(self).complete(),
            final(self).searching() == (old(self).searching() && !(old(self).pos() == old(self).data().len()
                && old(self).complete() && old(self).kept().sublen_complete)),
            final(self).searching() ==> final(self).links() == begun(
                old(self).data(),
                old(self).start(),
            ),
    {
        let done: bool = self.next == self.arr.len() && self.thorough && self.lmc.is_sublen_complete();
        if self.hashing && !done {
            self.h.reset();
            proof {
                assert(self.h.knows(
                    self.arr@,
                    self.windowstart as int,
                    self.windowstart as int,
                ));
            }
            if self.windowstart < self.arr.len() {
                self.h.warmup(self.arr, self.windowstart, Ghost(self.windowstart as int));
            }
            enter_until(
                &mut self.h,
                self.arr,
                self.windowstart,
                self.instart,
                Ghost(self.windowstart as int),
            );
        } else {
            self.hashing = false;
        }
        self.next = self.instart;
        self.thorough = true;
    }

    /// The nearest distance for each length at the last position.
    pub fn sublens(&self) -> (r: &Vec<u16>)
        requires
            self.wf(),
        ensures
            r@ == self.dists(),
            r@.len() >= 259,
    {
        &self.sublen
    }

    /// Whether the position lies in a run of equal bytes that is so long that all of its
    /// matches are known.
    fn in_long_run(&self, i: usize) -> (r: bool)
        requires
            self.h.knows(self.arr@, self.windowstart as int, i + 1),
            self.windowstart <= self.instart <= i < self.arr@.len(),
            self.windowstart == if self.instart > 32768 {
                self.instart - 32768
            } else {
                0
            },
        ensures
            r == in_run(self.h@, self.arr@, self.instart as int, i as int),
            r ==> i + 2 * 258 + 1 < self.arr@.len() && forall|j: int|
                0 <= j < 258 ==> #[trigger] items::is_match(self.arr@, i + j, 258, 1),
    {
        let n: usize = self.arr.len();
        let ghost a = self.arr@;
        let same: u16 = self.h.same[i % WINDOW_SIZE];
        assert(self.h.same@[i as int % 32768] == chain::run_of(a, i as int));
        if same <= 2 * 258 || i - self.instart <= MAX_MATCH + 1 || n - i <= 2 * MAX_MATCH + 1 {
            return false;
        }
        let before: u16 = self.h.same[(i - MAX_MATCH) % WINDOW_SIZE];
        proof {
            assert(self.h.same@[(i - 258) % 32768] == chain::run_of(a, i - 258));
            chain::lemma_run(a, i as int, 0);
            chain::lemma_run(a, i - 258, 0);
            if before > 258 {
                assert forall|j: int| 0 <= j < 258 implies #[trigger] items::is_match(a, i + j, 258, 1) by {
                    assert forall|k: int| i + j <= k < i + j + 258 implies #[trigger] a[k] == a[k - 1] by {
                        if k > i {
                            assert(a[k] == a[i as int]);
                            if k - 1 > i {
                                assert(a[k - 1] == a[i as int]);
                            }
                        } else {
                            assert(a[i as int] == a[i - 258]);
                            assert(a[i - 1] == a[i - 258]);
                        }
                    }
                }
            }
        }
        before > 258
    }

    /// The longest match at the next position, and for each length up to it the nearest
    /// distance.
    #[verifier::rlimit(30)]
    pub fn advance(&mut self) -> (r: Option<Step>)
        requires
            old(self).wf(),
        ensures
            final(self).wf(),
            final(self).data() == old(self).data(),
            final(self).start() == old(self).start(),
            r is None <==> old(self).pos() == old(self).data().len(),
            r is None ==> *final(self) == *old(self),
            final(self).searching() == old(self).searching(),
            r matches Some(step) ==> {
                &&& step.run == 258 <==> old(self).searching() && in_run(
                    old(self).links().with(old(self).data(), old(self).pos()),
                    old(self).data(),
                    old(self).start(),
                    old(self).pos(),
                )
                &&& final(self).complete() == (old(self).complete() && step.run == 0)
                &&& final(self).links() == if old(self).searching() {
                    old(self).links().entered(old(self).data(), old(self).pos(), step.pos + 1)
                } else {
                    old(self).links()
                }
                &&& cache::found_at(
                    old(self).kept(),
                    final(self).links(),
                    old(self).data(),
                    step.pos as int,
                    step.pos - old(self).start(),
                    258,
                    old(self).dists(),
                    step.length as int,
                    final(self).dists(),
                )
                &&& !old(self).kept().available(step.pos - old(self).start())
                    && old(self).data().len() - step.pos >= 3 ==> cache::keeps(
                    final(self).kept(),
                    step.pos - old(self).start(),
                    step.length,
                    final(self).dists(),
                )
                &&& step.run == 0 || step.run == 258
                &&& step.pos == old(self).pos() + step.run
                &&& step.pos < old(self).data().len()
                &&& final(self).pos() == step.pos + 1
                &&& step.run == 258 ==> step.pos + 258 < old(self).data().len() && forall|j: int|
                    0 <= j < 258 ==> #[trigger] items::is_match(
                        old(self).data(),
                        old(self).pos() + j,
                        258,
                        1,
                    )
                &&& step.length <= 258
                &&& step.pos + step.length <= old(self).data().len()
                &&& step.length >= 3 ==> search::sublens_ok(
                    old(self).data(),
                    step.pos as int,
                    final(self).dists(),
                    2,
                    step.length as int,
                )
            },
    {
        if self.next == self.arr.len() {
            return None;
        }
        let ghost ws = self.windowstart as int;
        let mut i: usize = self.next;
        let mut run: usize = 0;
        let ghost c0 = self.h@;
        if self.hashing {
            self.h.update(self.arr, i, Ghost(ws));
            proof {
                assert(c0.entered(self.arr@, i as int, i as int) == c0);
                assert(self.h@ == c0.entered(self.arr@, i as int, i + 1));
            }
            if self.in_long_run(i) {
                run = MAX_MATCH;
                enter_until(&mut self.h, self.arr, i + 1, i + run + 1, Ghost(ws));
                proof {
                    lemma_entered(c0, self.arr@, i as int, i + 1, i + run + 1);
                }
                i = i + run;
                self.thorough = false;
            }
        }
        let longest_match: LongestMatch = find_longest_match(
            &mut self.lmc,
            &self.h,
            self.arr,
            i,
            self.instart,
            MAX_MATCH,
            &mut self.sublen,
            Ghost(ws),
        );
        self.next = i + 1;
        Some(Step { run, pos: i, length: longest_match.length })
    }
}

} // verus!
