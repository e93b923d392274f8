//! How a parse weighs matches, and where it ends a block.

use crate::compress::block_split;
use crate::compress::block_split::Observed;
use crate::compress::chain_model;
use crate::compress::chain_model::Work;
use crate::compress::chains::{Lookahead, SearchParams};
use crate::compress::near_model;
use crate::compress::near_model::Fill;
use crate::compress::params;
use vstd::arithmetic::power2::{lemma2_to64, lemma_pow2_unfold, pow2};
use vstd::prelude::*;

verus! {

/// The highest bit of a number is that of the largest power of two in it.
pub proof fn law_highest_bit(v: int)
    requires
        v > 0,
    ensures
        0 <= params::log2_of(v),
        pow2(params::log2_of(v) as nat) <= v < pow2((params::log2_of(v) + 1) as nat),
    decreases v,
{
    lemma2_to64();
    if v > 1 {
        law_highest_bit(v / 2);
        lemma_pow2_unfold(params::log2_of(v) as nat);
        lemma_pow2_unfold((params::log2_of(v) + 1) as nat);
    }
}

/// A larger number has no lower highest bit.
proof fn lemma_log2_grows(a: int, b: int)
    requires
        a <= b,
    ensures
        params::log2_of(a) <= params::log2_of(b),
    decreases b,
{
    if a > 1 {
        lemma_log2_grows(a / 2, b / 2);
    } else if b > 1 {
        lemma_log2_grows(0, b / 2);
    }
}

/// A longer match that is no further away is better, by one byte at the next position and by
/// two at the one behind it; a shorter one never is, nor one of the same length that is
/// further away.
pub proof fn law_longer_is_better(cur: (int, int), next: (int, int))
    ensures
        next.0 > cur.0 && next.1 <= cur.1 ==> chain_model::better(cur, next, 2),
        next.0 > cur.0 + 1 && next.1 <= cur.1 ==> chain_model::better(cur, next, 6),
        next.0 < cur.0 ==> !chain_model::better(cur, next, 2) && !chain_model::better(cur, next, 6),
        next.0 == cur.0 && next.1 >= cur.1 ==> !chain_model::better(cur, next, 2)
            && !chain_model::better(cur, next, 6),
{
    if next.1 <= cur.1 {
        lemma_log2_grows(next.1, cur.1);
    }
    if next.1 >= cur.1 {
        lemma_log2_grows(cur.1, next.1);
    }
}

/// What was taken before stays.
proof fn lemma_lazily_goes_on(
    w: Work,
    h: Seq<u8>,
    item: (int, int),
    sp: SearchParams,
    lazy2: bool,
)
    ensures
        ({
            let v = chain_model::lazily(w, h, item, sp, lazy2);
            v.its.len() > w.its.len() && v.its.take(w.its.len() as int) == w.its
        }),
    decreases
            (if w.place.next < h.len() {
                h.len() - w.place.next
            } else {
                0
            }),
{
    let v = chain_model::lazily(w, h, item, sp, lazy2);
    let start = w.place.next - 1;
    if item.0 >= w.place.nice_len || item.0 >= sp.max_lazy || w.place.next >= h.len() {
        assert(v.its.take(w.its.len() as int) =~= w.its);
    } else {
        let p1 = chain_model::after_find(w.place, h);
        let next = chain_model::found_at(
            w.place,
            h,
            item.0 - 1,
            sp.max_search_depth as int / 2,
            sp.good_match as int,
        );
        let p2 = chain_model::after_find(p1, h);
        let next2 = chain_model::found_at(
            p1,
            h,
            item.0 - 1,
            sp.max_search_depth as int / 4,
            sp.good_match as int,
        );
        let one = Work { place: p1, ..chain_model::with_literal(w, h[start]) };
        let two = Work {
            place: p2,
            ..chain_model::with_literal(chain_model::with_literal(w, h[start]), h[start + 1])
        };
        if chain_model::better(item, next, 2) {
            lemma_lazily_goes_on(one, h, next, sp, lazy2);
            assert(v.its.take(w.its.len() as int) =~= v.its.take(one.its.len() as int).take(
                w.its.len() as int,
            ));
            assert(one.its.take(w.its.len() as int) =~= w.its);
        } else if lazy2 && chain_model::better(item, next2, 6) {
            lemma_lazily_goes_on(two, h, next2, sp, lazy2);
            assert(v.its.take(w.its.len() as int) =~= v.its.take(two.its.len() as int).take(
                w.its.len() as int,
            ));
            assert(two.its.take(w.its.len() as int) =~= w.its);
        } else {
            assert(v.its.take(w.its.len() as int) =~= w.its);
        }
    }
}

/// A lazy parse waits for a longer match: where the search at the next position finds one that
/// is no further away, a literal is taken first. A match that is nice or long enough for the
/// level is taken at once.
pub proof fn law_lazy_waits(w: Work, h: Seq<u8>, item: (int, int), sp: SearchParams, lazy2: bool)
    ensures
        ({
            let v = chain_model::lazily(w, h, item, sp, lazy2);
            let next = chain_model::found_at(
                w.place,
                h,
                item.0 - 1,
                sp.max_search_depth as int / 2,
                sp.good_match as int,
            );
            let n = w.its.len() as int;
            &&& item.0 >= w.place.nice_len || item.0 >= sp.max_lazy || w.place.next >= h.len()
                ==> v.its == w.its.push(item)
            &&& item.0 < w.place.nice_len && item.0 < sp.max_lazy && w.place.next < h.len()
                && next.0 > item.0 && next.1 <= item.1 ==> v.its.len() > n + 1 && v.its[n] == (
            1int, 0int)
        }),
{
    let next = chain_model::found_at(
        w.place,
        h,
        item.0 - 1,
        sp.max_search_depth as int / 2,
        sp.good_match as int,
    );
    let v = chain_model::lazily(w, h, item, sp, lazy2);
    if item.0 < w.place.nice_len && item.0 < sp.max_lazy && w.place.next < h.len() && next.0
        > item.0 && next.1 <= item.1 {
        law_longer_is_better(item, next);
        let p1 = chain_model::after_find(w.place, h);
        let one = Work { place: p1, ..chain_model::with_literal(w, h[w.place.next - 1]) };
        lemma_lazily_goes_on(one, h, next, sp, lazy2);
        let t = v.its.take(one.its.len() as int);
        assert(t[w.its.len() as int] == (1int, 0int));
    }
}

/// A block of a chain parse ends only at its latest place, with a full store, or, if blocks are
/// split, where there are enough observations and the recent ones differ.
pub proof fn law_run_ends(
    w: Work,
    h: Seq<u8>,
    begin: int,
    end: int,
    sp: SearchParams,
    look: Lookahead,
    split: bool,
    min_len: int,
    recalc: int,
) -> (before: Work)
    ensures
        ({
            let v = chain_model::run(w, h, begin, end, sp, look, split, min_len, recalc);
            ||| v.place.next >= end
            ||| v.matches >= 50000
            ||| v.place.next <= before.place.next
            ||| {
                &&& split
                &&& v.seen.num_recent >= 512
                &&& v.place.next - begin >= 5000
                &&& h.len() - v.place.next >= 5000
                &&& block_split::differs(v.seen, v.place.next - begin)
            }
        }),
        exists|least: int|
            chain_model::run(w, h, begin, end, sp, look, split, min_len, recalc)
                == #[trigger] chain_model::step(before, h, sp, look, least),
    decreases
            (if w.place.next < end {
                end - w.place.next
            } else {
                0
            }),
{
    let anew = look != Lookahead::Greedy && split && w.place.next >= recalc;
    let min_len1 = if anew {
        chain_model::common_min_len(h, begin, w.its, sp.max_search_depth as int)
    } else {
        min_len
    };
    let recalc1 = if anew {
        recalc + chain_model::lesser(h.len() - recalc, w.place.next - begin)
    } else {
        recalc
    };
    let v = chain_model::step(w, h, sp, look, min_len1);
    let ready = split && block_split::is_ready(v.seen, begin, v.place.next, h.len() as int);
    if v.place.next >= end || v.place.next <= w.place.next || v.matches >= 50000 {
        w
    } else if ready && block_split::differs(v.seen, v.place.next - begin) {
        w
    } else {
        let seen = if ready {
            block_split::merged(v.seen)
        } else {
            v.seen
        };
        law_run_ends(Work { seen, ..v }, h, begin, end, sp, look, split, min_len1, recalc1)
    }
}

/// A block of a near-optimal parse ends only at its latest place, at the end of the data, with
/// a full cache, or where there are enough observations and the recent ones differ.
pub proof fn law_fill_ends(
    f: Fill,
    h: Seq<u8>,
    begin: int,
    max_end: int,
    min_len: int,
    depth: int,
) -> (before: Fill)
    ensures
        ({
            let r = near_model::filled(f, h, begin, max_end, min_len, depth);
            let next = r.0.spot.next;
            ||| r.1 is None && (next >= max_end || next >= h.len() || r.0.cache.len() >= 1500000
                || next <= before.spot.next)
            ||| {
                &&& r.0.o.num_recent >= 512
                &&& next - begin >= 5000
                &&& h.len() - next >= 5000
                &&& block_split::differs(r.0.o, next - begin)
                &&& r.1 == r.0.checked
            }
        }),
        near_model::filled(f, h, begin, max_end, min_len, depth).0 == near_model::look_on(
            before,
            h,
            min_len,
            depth,
        ),
    decreases h.len() - f.spot.next,
{
    let g = near_model::look_on(f, h, min_len, depth);
    let next = g.spot.next;
    if next >= max_end || g.cache.len() >= 1500000 || !(f.spot.next < next < h.len()) {
        f
    } else if !block_split::is_ready(g.o, begin, next, h.len() as int) {
        law_fill_ends(g, h, begin, max_end, min_len, depth)
    } else if block_split::differs(g.o, next - begin) {
        f
    } else {
        law_fill_ends(near_model::merged_fill(g), h, begin, max_end, min_len, depth)
    }
}

/// There are eight types of literals, by their two highest bits and their lowest one, and two
/// of matches, short ones and those of nine bytes or more.
pub proof fn law_types(a: u8, b: u8, len: int)
    ensures
        0 <= block_split::literal_type(a) < 8,
        block_split::literal_type(a) == block_split::literal_type(b) <==> a >> 6u8 == b >> 6u8 && a
            & 1u8 == b & 1u8,
        block_split::match_type(len) != block_split::literal_type(a),
        block_split::match_type(8) != block_split::match_type(9),
        block_split::match_type(len) == block_split::match_type(if len < 9 {
            8
        } else {
            9
        }),
        0 <= block_split::match_type(len) < 10,
{
    assert(a >> 6u8 == a / 64u8 && b >> 6u8 == b / 64u8 && a & 1u8 == a % 2u8 && b & 1u8 == b % 2u8)
        by (bit_vector);
}

/// The sum of counters with one of them raised.
proof fn lemma_sum_raised(c: Seq<int>, kind: int, n: nat)
    requires
        0 <= kind < c.len(),
        n <= c.len(),
    ensures
        block_split::sum_of(c.update(kind, c[kind] + 1), n) == block_split::sum_of(c, n) + if kind
            < n {
            1int
        } else {
            0
        },
    decreases n,
{
    if n > 0 {
        lemma_sum_raised(c, kind, (n - 1) as nat);
    }
}

/// The sum of counters that were added up.
proof fn lemma_sum_added(a: Seq<int>, b: Seq<int>, c: Seq<int>, n: nat)
    requires
        forall|i: int| 0 <= i < n ==> #[trigger] c[i] == a[i] + b[i],
    ensures
        block_split::sum_of(c, n) == block_split::sum_of(a, n) + block_split::sum_of(b, n),
    decreases n,
{
    if n > 0 {
        lemma_sum_added(a, b, c, (n - 1) as nat);
        assert(c[n - 1] == a[n - 1] + b[n - 1]);
    }
}

/// The counters of the types add up to the number of observations.
pub open spec fn adds_up(o: Observed) -> bool {
    &&& o.recent.len() == 10
    &&& o.before.len() == 10
    &&& block_split::sum_of(o.recent, 10) == o.num_recent
    &&& block_split::sum_of(o.before, 10) == o.num_before
}

/// Each observation is counted once, and none is lost when the recent ones are added to those
/// before them.
pub proof fn law_observations_add_up(o: Observed, kind: int)
    requires
        adds_up(o),
        0 <= kind < 10,
    ensures
        adds_up(block_split::seen(o, kind)),
        block_split::seen(o, kind).recent[kind] == o.recent[kind] + 1,
        block_split::seen(o, kind).num_recent == o.num_recent + 1,
        block_split::seen(o, kind).num_before == o.num_before,
        adds_up(block_split::merged(o)),
        block_split::merged(o).num_before == o.num_before + o.num_recent,
        block_split::merged(o).num_recent == 0,
{
    let m = block_split::merged(o);
    lemma_sum_raised(o.recent, kind, 10);
    lemma_sum_added(o.before, o.recent, m.before, 10);
    lemma_sum_added(m.recent, m.recent, m.recent, 10);
}

/// Marking more values makes no fewer marked.
proof fn lemma_marked_more(a: Seq<bool>, b: Seq<bool>, n: nat)
    requires
        forall|i: int| 0 <= i < n && #[trigger] a[i] ==> b[i],
    ensures
        params::marked(a, n) <= params::marked(b, n) <= n,
    decreases n,
{
    if n > 0 {
        lemma_marked_more(a, b, (n - 1) as nat);
    }
}

/// All values marked.
proof fn lemma_marked_all(a: Seq<bool>, n: nat)
    requires
        forall|i: int| 0 <= i < n ==> #[trigger] a[i],
    ensures
        params::marked(a, n) == n,
    decreases n,
{
    if n > 0 {
        lemma_marked_all(a, (n - 1) as nat);
        assert(a[n - 1]);
    }
}

/// The first minimum match length depends on the byte values in the first 4096 bytes: where
/// all those of one piece of data occur in another one too, the minimum is no larger there.
pub proof fn law_diverse_data(
    a: Seq<u8>,
    from: int,
    to: int,
    b: Seq<u8>,
    from2: int,
    to2: int,
    depth: int,
)
    requires
        to - from >= 512,
        to2 - from2 >= 512,
        forall|i: int|
            from <= i < to && i < from + 4096 ==> exists|j: int|
                from2 <= j < to2 && j < from2 + 4096 && b[j] == #[trigger] a[i],
    ensures
        params::initial_min_len(b, from2, to2, depth) <= params::initial_min_len(a, from, to, depth),
{
    let end = if to - from < 4096 {
        to
    } else {
        from + 4096
    };
    let end2 = if to2 - from2 < 4096 {
        to2
    } else {
        from2 + 4096
    };
    let x = params::used_literals(a, from, end);
    let y = params::used_literals(b, from2, end2);
    assert forall|v: int| 0 <= v < 256 && #[trigger] x[v] implies y[v] by {
        let i = choose|i: int| from <= i < end && a[i] == v;
        let j = choose|j: int| from2 <= j < to2 && j < from2 + 4096 && b[j] == a[i];
        assert(b[j] == v);
    }
    lemma_marked_more(x, y, 256);
}

/// Where all byte values occur in the first 4096 bytes, or there are fewer than 512 bytes,
/// matches of three bytes count.
pub proof fn law_three_bytes_count(a: Seq<u8>, from: int, to: int, depth: int)
    requires
        to - from < 512 || forall|v: int|
            0 <= v < 256 ==> #[trigger] params::occurs(
                a,
                from,
                chain_model::lesser(to, from + 4096),
                v,
            ),
    ensures
        params::initial_min_len(a, from, to, depth) == 3,
{
    if to - from >= 512 {
        let end = chain_model::lesser(to, from + 4096);
        let x = params::used_literals(a, from, end);
        assert forall|v: int| 0 <= v < 256 implies #[trigger] x[v] by {
            assert(params::occurs(a, from, end, v));
        }
        lemma_marked_all(x, 256);
    }
}

} // verus!
