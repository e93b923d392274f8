//! The parse that a search of hash chains gives: greedy, or with a look at the next
//! one or two positions.

use crate::compress::block;
use crate::compress::block_split;
use crate::compress::block_split::Observed;
use crate::compress::chains::{Lookahead, SearchParams};
use crate::compress::items;
use crate::compress::params;
use crate::compress::progress;
use crate::matchfinder;
use crate::matchfinder::hc;
use crate::matchfinder::hc::HcTabs;
use vstd::prelude::*;

verus! {

/// A position with what a search there needs: the tables, the longest match to look for,
/// the length that ends a search, and the hashes at the position.
#[verifier::ext_equal]
pub struct Place {
    pub tabs: HcTabs,
    pub next: int,
    pub max_len: int,
    pub nice_len: int,
    pub hash3: int,
    pub hash4: int,
}

/// The parse of a block so far, how many of its items are matches, the observations, and
/// where it has got to.
#[verifier::ext_equal]
pub struct Work {
    pub place: Place,
    pub its: Seq<(int, int)>,
    pub matches: int,
    pub seen: Observed,
}

/// No match reaches past the end of the data.
pub open spec fn within(p: Place, h: Seq<u8>) -> Place {
    let left = h.len() - p.next;
    if left >= 258 {
        p
    } else {
        Place {
            max_len: left,
            nice_len: if p.nice_len <= left {
                p.nice_len
            } else {
                left
            },
            ..p
        }
    }
}

/// The length and the distance of the match that a search finds; the length is `best_len`
/// if there is none that is longer.
pub open spec fn found_at(p: Place, h: Seq<u8>, best_len: int, depth: int, good: int) -> (
    int,
    int,
) {
    let q = within(p, h);
    let t = hc::entered(p.tabs, p.next, p.hash3, p.hash4);
    let n = matchfinder::slides(p.tabs.base, p.next);
    hc::hc_found(
        h,
        t.link,
        t.base,
        p.next,
        matchfinder::slid(p.tabs.t3, n)[p.hash3] as int,
        matchfinder::slid(p.tabs.t4, n)[p.hash4] as int,
        best_len,
        q.max_len,
        q.nice_len,
        hc::depth_of(depth, best_len, good),
    )
}

/// One position further, after a search.
pub open spec fn after_find(p: Place, h: Seq<u8>) -> Place {
    let more = p.next + 5 <= h.len();
    Place {
        tabs: hc::entered(p.tabs, p.next, p.hash3, p.hash4),
        next: p.next + 1,
        hash3: if more {
            hc::hash3_at(h, p.next + 1)
        } else {
            p.hash3
        },
        hash4: if more {
            hc::hash4_at(h, p.next + 1)
        } else {
            p.hash4
        },
        ..within(p, h)
    }
}

/// Some positions further, without a search.
pub open spec fn after_skip(p: Place, h: Seq<u8>, count: int) -> Place {
    if count <= 0 || p.next + count + 5 > h.len() {
        Place { next: p.next + count, ..p }
    } else {
        Place {
            tabs: hc::run_entered(p.tabs, h, p.next, count as nat, p.hash3, p.hash4),
            next: p.next + count,
            hash3: hc::hash3_at(h, p.next + count),
            hash4: hc::hash4_at(h, p.next + count),
            ..p
        }
    }
}

/// A literal is taken.
pub open spec fn with_literal(w: Work, lit: u8) -> Work {
    Work {
        its: w.its.push((1, 0)),
        seen: block_split::seen(w.seen, block_split::literal_type(lit)),
        ..w
    }
}

/// A match is taken.
pub open spec fn with_match(w: Work, item: (int, int)) -> Work {
    Work {
        its: w.its.push(item),
        matches: w.matches + 1,
        seen: block_split::seen(w.seen, block_split::match_type(item.0)),
        ..w
    }
}

/// The next match is so much better than the current one that literals before it pay off:
/// four for each byte of length, one less for each bit of distance.
pub open spec fn better(cur: (int, int), next: (int, int), threshold: int) -> bool {
    next.0 >= cur.0 && 4 * (next.0 - cur.0) + (params::log2_of(cur.1) - params::log2_of(next.1))
        > threshold
}

/// The match `item` at the position before the place is taken, or a better one that begins
/// a few bytes later, and the place moves on past it.
pub open spec fn lazily(
    w: Work,
    h: Seq<u8>,
    item: (int, int),
    sp: SearchParams,
    lazy2: bool,
) -> Work
    decreases
            (if w.place.next < h.len() {
                h.len() - w.place.next
            } else {
                0
            }),
{
    let start = w.place.next - 1;
    if item.0 >= w.place.nice_len || item.0 >= sp.max_lazy || w.place.next >= h.len() {
        Work { place: after_skip(w.place, h, item.0 - 1), ..with_match(w, item) }
    } else {
        let p1 = after_find(w.place, h);
        let next = found_at(
            w.place,
            h,
            item.0 - 1,
            sp.max_search_depth as int / 2,
            sp.good_match as int,
        );
        let p2 = after_find(p1, h);
        let next2 = found_at(
            p1,
            h,
            item.0 - 1,
            sp.max_search_depth as int / 4,
            sp.good_match as int,
        );
        if better(item, next, 2) {
            lazily(Work { place: p1, ..with_literal(w, h[start]) }, h, next, sp, lazy2)
        } else if !lazy2 {
            Work { place: after_skip(p1, h, item.0 - 2), ..with_match(w, item) }
        } else if better(item, next2, 6) {
            lazily(
                Work {
                    place: p2,
                    ..with_literal(with_literal(w, h[start]), h[start + 1])
                },
                h,
                next2,
                sp,
                lazy2,
            )
        } else {
            Work { place: after_skip(p2, h, item.0 - 3), ..with_match(w, item) }
        }
    }
}

/// The literals and matches that the search at the place gives, where a match is taken if
/// it has `min_len` bytes, and one of three bytes only if it is not far away.
#[verifier::opaque]
pub open spec fn step(
    w: Work,
    h: Seq<u8>,
    sp: SearchParams,
    look: Lookahead,
    min_len: int,
) -> Work {
    let item = found_at(
        w.place,
        h,
        min_len - 1,
        sp.max_search_depth as int,
        sp.good_match as int,
    );
    let limit: int = if look == Lookahead::Greedy {
        4096
    } else {
        8192
    };
    let place = after_find(w.place, h);
    if item.0 < min_len || (item.0 == 3 && item.1 > limit) {
        Work { place, ..with_literal(w, h[w.place.next]) }
    } else if look == Lookahead::Greedy {
        Work { place: after_skip(place, h, item.0 - 1), ..with_match(w, item) }
    } else {
        lazily(Work { place, ..w }, h, item, sp, look == Lookahead::Lazy2)
    }
}

/// How often each symbol occurs among the items of the block that begins at `begin`.
pub open spec fn symbol_counts(h: Seq<u8>, begin: int, its: Seq<(int, int)>) -> Seq<u32> {
    Seq::new(288, |s: int| items::litlen_count(h, begin, its, s) as u32)
}

/// The least length of a match for the literals that are common among the items.
pub open spec fn common_min_len(
    h: Seq<u8>,
    begin: int,
    its: Seq<(int, int)>,
    depth: int,
) -> int {
    let common = params::common_literals(symbol_counts(h, begin, its));
    params::min_match_len(params::marked(common, 256) as int, depth)
}

/// The lesser of two numbers.
pub open spec fn lesser(a: int, b: int) -> int {
    if a <= b {
        a
    } else {
        b
    }
}

/// The parse of a block that begins at `begin`, from the place on: up to `end`, to a full
/// store, or, if `split` is set, to where the data changes.
///
/// When looking ahead, the least length of a match is chosen anew where the parse reaches
/// `recalc`, if blocks are split.
pub open spec fn run(
    w: Work,
    h: Seq<u8>,
    begin: int,
    end: int,
    sp: SearchParams,
    look: Lookahead,
    split: bool,
    min_len: int,
    recalc: int,
) -> Work
    decreases
            (if w.place.next < end {
                end - w.place.next
            } else {
                0
            }),
{
    let anew = look != Lookahead::Greedy && split && w.place.next >= recalc;
    let min_len1 = if anew {
        common_min_len(h, begin, w.its, sp.max_search_depth as int)
    } else {
        min_len
    };
    let recalc1 = if anew {
        recalc + lesser(h.len() - recalc, w.place.next - begin)
    } else {
        recalc
    };
    let v = step(w, h, sp, look, min_len1);
    let ready = split && block_split::is_ready(v.seen, begin, v.place.next, h.len() as int);
    if v.place.next >= end || v.place.next <= w.place.next || v.matches >= 50000 {
        v
    } else if ready && block_split::differs(v.seen, v.place.next - begin) {
        v
    } else {
        let seen = if ready {
            block_split::merged(v.seen)
        } else {
            v.seen
        };
        run(Work { seen, ..v }, h, begin, end, sp, look, split, min_len1, recalc1)
    }
}

/// The parse of the block that begins at the place.
pub open spec fn block_run(
    p: Place,
    h: Seq<u8>,
    end: int,
    sp: SearchParams,
    look: Lookahead,
    split: bool,
) -> Work {
    run(
        Work { place: p, its: Seq::empty(), matches: 0, seen: block_split::nothing() },
        h,
        p.next,
        end,
        sp,
        look,
        split,
        params::initial_min_len(h, p.next, end, sp.max_search_depth as int),
        p.next + lesser(h.len() - p.next, 10000),
    )
}

/// The parse of a block that begins at the place and does not end where the data changes,
/// with matches of `min_len` bytes at least.
pub open spec fn pass_run(
    p: Place,
    h: Seq<u8>,
    end: int,
    sp: SearchParams,
    look: Lookahead,
    min_len: int,
) -> Work {
    run(
        Work { place: p, its: Seq::empty(), matches: 0, seen: block_split::nothing() },
        h,
        p.next,
        end,
        sp,
        look,
        false,
        min_len,
        p.next + lesser(h.len() - p.next, 10000),
    )
}

/// How blocks are made: where the first one begins, how matches are searched for and
/// chosen, how long blocks get, and whether they end where the data changes.
pub struct Setup {
    pub place: Place,
    pub sp: SearchParams,
    pub look: Lookahead,
    pub soft_max_len: int,
    pub split: bool,
}

/// After `k` blocks: the parse of the last of them, and where it ends.
pub open spec fn after_blocks(c: Setup, h: Seq<u8>, k: nat) -> Work
    decreases k,
{
    if k == 0 {
        Work { place: c.place, its: Seq::empty(), matches: 0, seen: block_split::nothing() }
    } else {
        let p = after_blocks(c, h, (k - 1) as nat).place;
        block_run(
            p,
            h,
            progress::max_block_end(p.next, h.len() as int, c.soft_max_len),
            c.sp,
            c.look,
            c.split,
        )
    }
}

/// The least length of a match in a pass over the data from the beginning on.
pub open spec fn pass_min_len(c: Setup, h: Seq<u8>) -> int {
    params::initial_min_len(h, c.place.next, h.len() as int, c.sp.max_search_depth as int)
}

/// After `k` blocks of a pass over the data: the parse of the last of them, and where it
/// ends. The least length of a match is chosen once for all of them.
pub open spec fn after_passes(c: Setup, h: Seq<u8>, k: nat) -> Work
    decreases k,
{
    if k == 0 {
        Work { place: c.place, its: Seq::empty(), matches: 0, seen: block_split::nothing() }
    } else {
        let p = after_passes(c, h, (k - 1) as nat).place;
        pass_run(
            p,
            h,
            progress::max_block_end(p.next, h.len() as int, c.soft_max_len),
            c.sp,
            c.look,
            pass_min_len(c, h),
        )
    }
}

/// What the symbols of the first `k` blocks of a pass take in bits, with codes of these
/// lengths.
pub open spec fn pass_cost(c: Setup, h: Seq<u8>, ll: Seq<u8>, ol: Seq<u8>, k: nat) -> int
    decreases k,
{
    if k == 0 {
        0
    } else {
        pass_cost(c, h, ll, ol, (k - 1) as nat) + items::cost(
            h,
            after_passes(c, h, (k - 1) as nat).place.next,
            after_passes(c, h, k).its,
            ll,
            ol,
        )
    }
}

/// The bits `b1` are the bits `b` and block number `k`, counted from 1, which is not empty
/// and written in the cheapest of three ways.
pub open spec fn block_written(
    c: Setup,
    h: Seq<u8>,
    b: Seq<bool>,
    b1: Seq<bool>,
    last: bool,
    k: nat,
) -> bool {
    let begin = after_blocks(c, h, (k - 1) as nat).place.next;
    let w = after_blocks(c, h, k);
    &&& begin < w.place.next
    &&& block::coded_as(
        b,
        b1,
        h,
        begin,
        w.place.next - begin,
        w.its,
        last && w.place.next == h.len(),
    )
}

/// The bits `b1` are the bits `b0` and `k` blocks, each of them written in the cheapest
/// of three ways.
pub open spec fn blocks_written(
    c: Setup,
    h: Seq<u8>,
    b0: Seq<bool>,
    b1: Seq<bool>,
    last: bool,
    k: nat,
) -> bool
    decreases k,
{
    if k == 0 {
        b1 == b0
    } else {
        exists|b: Seq<bool>|
            {
                &&& blocks_written(c, h, b0, b, last, (k - 1) as nat)
                &&& #[trigger] block_written(c, h, b, b1, last, k)
            }
    }
}

/// The bits `b1` are the bits `b0` and the blocks from the beginning to the place.
#[verifier::opaque]
pub open spec fn written_to(
    c: Setup,
    h: Seq<u8>,
    b0: Seq<bool>,
    b1: Seq<bool>,
    last: bool,
    place: Place,
) -> bool {
    exists|k: nat|
        {
            &&& #[trigger] blocks_written(c, h, b0, b1, last, k)
            &&& after_blocks(c, h, k).place == place
        }
}

/// The bits `b1` are the bits `b0` and the blocks of all of the data.
pub open spec fn chain_coded(
    c: Setup,
    h: Seq<u8>,
    b0: Seq<bool>,
    b1: Seq<bool>,
    last: bool,
) -> bool {
    exists|p: Place| p.next == h.len() && #[trigger] written_to(c, h, b0, b1, last, p)
}

/// A position with tables that know none, before any of the data has been seen.
pub open spec fn fresh_place(next: int, nice: int) -> Place {
    Place {
        tabs: hc::fresh_tabs(next),
        next,
        max_len: 258,
        nice_len: lesser(258, nice),
        hash3: 0,
        hash4: 0,
    }
}

/// What a whole run begins with: tables that know the window before `chunk_start`.
pub open spec fn setup_at(
    h: Seq<u8>,
    chunk_start: int,
    sp: SearchParams,
    look: Lookahead,
) -> Setup {
    let dict = progress::dictionary_at(chunk_start);
    Setup {
        place: after_skip(
            fresh_place(dict, sp.nice_match_length as int),
            h,
            chunk_start - dict,
        ),
        sp,
        look,
        soft_max_len: 300000,
        split: true,
    }
}

/// The bits `b0` and the first of the blocks take more than `room` bytes.
#[verifier::opaque]
pub open spec fn spills(
    c: Setup,
    h: Seq<u8>,
    b0: Seq<bool>,
    last: bool,
    room: int,
) -> bool {
    exists|b1: Seq<bool>, k: nat|
        #[trigger] blocks_written(c, h, b0, b1, last, k) && block::too_long(b1, room)
}

/// The bits `b1` are the bits `b0` and the blocks up to `next`, and the lengths are those of
/// the codes for the last of them.
#[verifier::opaque]
pub open spec fn last_codes(
    c: Setup,
    h: Seq<u8>,
    b0: Seq<bool>,
    b1: Seq<bool>,
    last: bool,
    next: int,
    ll: Seq<u8>,
    ol: Seq<u8>,
) -> bool {
    exists|k: nat|
        {
            &&& #[trigger] blocks_written(c, h, b0, b1, last, k)
            &&& k > 0
            &&& after_blocks(c, h, k).place.next == next
            &&& block::codes_for(
                h,
                after_blocks(c, h, (k - 1) as nat).place.next,
                after_blocks(c, h, k).its,
                ll,
                ol,
            )
        }
}

pub proof fn lemma_written_start(c: Setup, h: Seq<u8>, b: Seq<bool>, last: bool)
    ensures
        written_to(c, h, b, b, last, c.place),
{
    reveal(written_to);
    assert(blocks_written(c, h, b, b, last, 0));
}

/// One more block.
pub proof fn lemma_written_step(
    c: Setup,
    h: Seq<u8>,
    b0: Seq<bool>,
    b: Seq<bool>,
    b1: Seq<bool>,
    last: bool,
    p: Place,
    w: Work,
)
    requires
        written_to(c, h, b0, b, last, p),
        w == block_run(
            p,
            h,
            progress::max_block_end(p.next, h.len() as int, c.soft_max_len),
            c.sp,
            c.look,
            c.split,
        ),
        p.next < w.place.next,
        block::coded_as(
            b,
            b1,
            h,
            p.next,
            w.place.next - p.next,
            w.its,
            last && w.place.next == h.len(),
        ),
    ensures
        written_to(c, h, b0, b1, last, w.place),
        forall|ll: Seq<u8>, ol: Seq<u8>| #[trigger]
            block::codes_for(h, p.next, w.its, ll, ol) ==> last_codes(
                c,
                h,
                b0,
                b1,
                last,
                w.place.next,
                ll,
                ol,
            ),
{
    reveal(written_to);
    reveal(last_codes);
    let k = choose|k: nat|
        {
            &&& #[trigger] blocks_written(c, h, b0, b, last, k)
            &&& after_blocks(c, h, k).place == p
        };
    assert((k + 1 - 1) as nat == k);
    assert(block_written(c, h, b, b1, last, k + 1));
    assert(blocks_written(c, h, b0, b1, last, k + 1));
}

} // verus!
