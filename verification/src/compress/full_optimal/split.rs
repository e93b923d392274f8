//! Splitting literals and matches into blocks.

use crate::compress::block;
use crate::compress::block::{make_huffman_codes, DeflateCodes, DeflateFreqs};
use crate::compress::cost_model;
use crate::compress::full_optimal::store;
use crate::compress::full_optimal::store::{LitLen, Lz77Store};
use crate::compress::items;
use crate::compress::items::{get_length_slot, get_offset_slot};
use crate::compress::near_optimal::compute_true_cost;
use vstd::prelude::*;

verus! {

/// How many blocks there are at most.
pub const MAX_BLOCKS: u16 = 15;

/// A literal is a byte, and a match has a length and a distance that can be written.
pub open spec fn plain(x: LitLen) -> bool {
    match x {
        LitLen::Literal(lit) => lit <= 255,
        LitLen::LengthDist(len, dist) => 3 <= len <= 258 && 1 <= dist <= 32768,
    }
}

/// All literals and matches can be written.
pub open spec fn all_plain(ls: Seq<LitLen>) -> bool {
    forall|k: int| 0 <= k < ls.len() ==> plain(#[trigger] ls[k])
}

/// What stands for data can be written.
pub proof fn lemma_plain(ls: Seq<LitLen>, h: Seq<u8>, base: int)
    requires
        store::stands_for(ls, h, base),
    ensures
        all_plain(ls),
{
    assert forall|k: int| 0 <= k < ls.len() implies plain(#[trigger] ls[k]) by {
        store::lemma_take(ls, h, base, k);
    }
}

/// The literal/length symbol.
pub open spec fn sym_of(x: LitLen) -> int {
    match x {
        LitLen::Literal(lit) => lit as int,
        LitLen::LengthDist(len, _) => 257 + items::length_slot_of(len as int),
    }
}

/// The literal or match has this offset symbol.
pub open spec fn has_slot(x: LitLen, s: int) -> bool {
    x matches LitLen::LengthDist(_, dist) && items::offset_slot_of(dist as int) == s
}

/// How often a literal/length symbol occurs.
pub open spec fn sym_count(ls: Seq<LitLen>, s: int) -> int
    decreases ls.len(),
{
    if ls.len() == 0 {
        0
    } else {
        sym_count(ls.drop_last(), s) + if sym_of(ls.last()) == s {
            1int
        } else {
            0
        }
    }
}

/// How often an offset symbol occurs.
pub open spec fn slot_count(ls: Seq<LitLen>, s: int) -> int
    decreases ls.len(),
{
    if ls.len() == 0 {
        0
    } else {
        slot_count(ls.drop_last(), s) + if has_slot(ls.last(), s) {
            1int
        } else {
            0
        }
    }
}

/// No symbol occurs more often than there are literals and matches.
proof fn lemma_count_bound(ls: Seq<LitLen>, s: int)
    ensures
        0 <= sym_count(ls, s) <= ls.len(),
        0 <= slot_count(ls, s) <= ls.len(),
    decreases ls.len(),
{
    if ls.len() > 0 {
        lemma_count_bound(ls.drop_last(), s);
    }
}

/// The end-of-block symbol is no symbol of a literal or a match.
proof fn lemma_no_eob(ls: Seq<LitLen>)
    requires
        all_plain(ls),
    ensures
        sym_count(ls, 256) == 0,
    decreases ls.len(),
{
    if ls.len() > 0 {
        let x = ls.last();
        assert(plain(ls[ls.len() - 1]));
        if let LitLen::LengthDist(len, dist) = x {
            items::lemma_slots(len as int, dist as int);
        }
        lemma_no_eob(ls.drop_last());
    }
}

/// The counters of literals and matches, with `eob` end-of-block symbols.
pub open spec fn counted(freqs: DeflateFreqs, ls: Seq<LitLen>, eob: int) -> bool {
    &&& forall|s: int|
        0 <= s < 288 ==> #[trigger] freqs.litlen@[s] == sym_count(ls, s) + if s == 256 {
            eob
        } else {
            0
        }
    &&& forall|s: int| 0 <= s < 32 ==> #[trigger] freqs.offset@[s] == slot_count(ls, s)
}

/// Count the symbols from `lstart` to `lend`, with the end-of-block symbol.
#[verifier::rlimit(30)]
pub fn count_symbols(lz77: &Lz77Store, lstart: usize, lend: usize) -> (freqs: DeflateFreqs)
    requires
        lstart <= lend <= lz77.litlens@.len(),
        lend - lstart < 0xffff_ffff,
        all_plain(lz77.litlens@),
    ensures
        counted(freqs, lz77.litlens@.subrange(lstart as int, lend as int), 1),
{
    let ghost ls = lz77.litlens@;
    let mut freqs: DeflateFreqs = DeflateFreqs::default();
    let mut k: usize = lstart;
    proof {
        assert(ls.subrange(lstart as int, lstart as int) =~= Seq::empty());
    }
    while k < lend
        invariant
            ls == lz77.litlens@,
            all_plain(ls),
            lstart <= k <= lend <= ls.len(),
            lend - lstart < 0xffff_ffff,
            counted(freqs, ls.subrange(lstart as int, k as int), 0),
        decreases lend - k,
    {
        let ghost f0 = freqs;
        let ghost sub = ls.subrange(lstart as int, k as int);
        let ghost more = ls.subrange(lstart as int, k + 1);
        proof {
            assert(more.drop_last() =~= sub);
            assert(more.last() == ls[k as int]);
            assert(plain(ls[k as int]));
            assert forall|s: int| 0 <= s < 288 implies #[trigger] f0.litlen@[s] < 0xffff_ffff by {
                lemma_count_bound(sub, s);
            }
            assert forall|s: int| 0 <= s < 32 implies #[trigger] f0.offset@[s] < 0xffff_ffff by {
                lemma_count_bound(sub, s);
            }
        }
        match lz77.litlens[k] {
            LitLen::Literal(lit) => {
                let i: usize = lit as usize;
                freqs.litlen[i] = freqs.litlen[i] + 1;
            },
            LitLen::LengthDist(len, dist) => {
                proof {
                    items::lemma_slots(len as int, dist as int);
                }
                let i: usize = 257 + get_length_slot(len as u32) as usize;
                let j: usize = get_offset_slot(dist as u32) as usize;
                freqs.litlen[i] = freqs.litlen[i] + 1;
                freqs.offset[j] = freqs.offset[j] + 1;
            },
        }
        proof {
            assert forall|s: int| 0 <= s < 288 implies #[trigger] freqs.litlen@[s] == sym_count(
                more,
                s,
            ) + if s == 256 {
                0int
            } else {
                0
            } by {
                assert(f0.litlen@[s] == sym_count(sub, s));
            }
            assert forall|s: int| 0 <= s < 32 implies #[trigger] freqs.offset@[s] == slot_count(
                more,
                s,
            ) by {
                assert(f0.offset@[s] == slot_count(sub, s));
            }
        }
        k = k + 1;
    }
    let ghost f1 = freqs;
    let ghost sub = ls.subrange(lstart as int, lend as int);
    proof {
        lemma_no_eob(sub);
        assert(f1.litlen@[256] == sym_count(sub, 256));
    }
    freqs.litlen[256] = freqs.litlen[256] + 1;
    proof {
        assert forall|s: int| 0 <= s < 288 implies #[trigger] freqs.litlen@[s] == sym_count(sub, s)
            + if s == 256 {
            1int
        } else {
            0
        } by {
            assert(f1.litlen@[s] == sym_count(sub, s));
        }
        assert forall|s: int| 0 <= s < 32 implies #[trigger] freqs.offset@[s] == slot_count(sub, s) by {
            assert(f1.offset@[s] == slot_count(sub, s));
        }
    }
    freqs
}

/// The counters of the literal/length symbols of a block, with its end-of-block symbol.
pub open spec fn litlen_counts(ls: Seq<LitLen>) -> Seq<u32> {
    Seq::new(
        288,
        |s: int|
            (sym_count(ls, s) + if s == 256 {
                1int
            } else {
                0
            }) as u32,
    )
}

/// The counters of the offset symbols of a block.
pub open spec fn offset_counts(ls: Seq<LitLen>) -> Seq<u32> {
    Seq::new(32, |s: int| slot_count(ls, s) as u32)
}

/// What literals and matches cost as a block with its own codes.
pub open spec fn part_cost(ls: Seq<LitLen>) -> int {
    cost_model::cost_of_counts(litlen_counts(ls), offset_counts(ls))
}

/// The cost of counted symbols as a block with its own codes.
pub fn block_cost(freqs: &DeflateFreqs) -> (cost: u64)
    requires
        forall|s: int| 0 <= s < 288 ==> #[trigger] freqs.litlen@[s] < 0x40_0000,
        forall|s: int| 0 <= s < 32 ==> #[trigger] freqs.offset@[s] < 0x40_0000,
    ensures
        cost <= 0x4000_0000_0000,
        cost == cost_model::cost_of_counts(freqs.litlen@, freqs.offset@),
{
    let mut codes: DeflateCodes = DeflateCodes::default();
    make_huffman_codes(freqs, &mut codes);
    proof {
        reveal(block::built);
        cost_model::lemma_code_for(freqs.litlen@, 14, codes.lens_litlen@);
        cost_model::lemma_code_for(freqs.offset@, 15, codes.lens_offset@);
    }
    compute_true_cost(freqs, &codes)
}

/// The cost of the literals and matches from `lstart` to `lend` as a block of their own.
pub fn calculate_block_size_dynamic(lz77: &Lz77Store, lstart: usize, lend: usize) -> (cost: u64)
    requires
        lstart <= lend <= lz77.litlens@.len(),
        lend - lstart < 0x3f_ffff,
        all_plain(lz77.litlens@),
    ensures
        cost <= 0x4000_0000_0000,
        cost == part_cost(lz77.litlens@.subrange(lstart as int, lend as int)),
{
    let freqs: DeflateFreqs = count_symbols(lz77, lstart, lend);
    proof {
        let sub = lz77.litlens@.subrange(lstart as int, lend as int);
        assert forall|s: int| 0 <= s < 288 implies #[trigger] freqs.litlen@[s] < 0x40_0000 by {
            lemma_count_bound(sub, s);
        }
        assert forall|s: int| 0 <= s < 32 implies #[trigger] freqs.offset@[s] < 0x40_0000 by {
            lemma_count_bound(sub, s);
        }
        assert(freqs.litlen@ =~= litlen_counts(sub));
        assert(freqs.offset@ =~= offset_counts(sub));
    }
    block_cost(&freqs)
}

/// The cost of the two blocks that a split at `m` makes of the places from `a` to `b`.
pub open spec fn cut_cost(ls: Seq<LitLen>, a: int, m: int, b: int) -> int {
    part_cost(ls.subrange(a, m)) + part_cost(ls.subrange(m, b))
}

/// The cost of the two blocks that a split between `lstart` and `lend` makes.
fn cost_of_split(lz77: &Lz77Store, lstart: usize, at: usize, lend: usize) -> (cost: u64)
    requires
        lstart <= at <= lend <= lz77.litlens@.len(),
        lend - lstart < 0x3f_ffff,
        all_plain(lz77.litlens@),
    ensures
        cost <= 0x8000_0000_0000,
        cost == cut_cost(lz77.litlens@, lstart as int, at as int, lend as int),
{
    calculate_block_size_dynamic(lz77, lstart, at) + calculate_block_size_dynamic(lz77, at, lend)
}

/// The first of `n` places, `step` apart from `from` on, with the cheapest split, given the
/// best of the first `i` of them, and what the split costs.
pub open spec fn cheapest_of(
    ls: Seq<LitLen>,
    a: int,
    b: int,
    from: int,
    step: int,
    n: int,
    i: int,
    at: int,
    cost: int,
) -> (int, int)
    decreases n - i,
{
    if i >= n {
        (at, cost)
    } else {
        let v = cut_cost(ls, a, from + i * step, b);
        if v < cost {
            cheapest_of(ls, a, b, from, step, n, i + 1, i, v)
        } else {
            cheapest_of(ls, a, b, from, step, n, i + 1, at, cost)
        }
    }
}

/// No place that was tried has a cheaper split than the one chosen, and none before it one
/// as cheap.
pub proof fn lemma_cheapest_of(
    ls: Seq<LitLen>,
    a: int,
    b: int,
    from: int,
    step: int,
    n: int,
    i: int,
    at: int,
    cost: int,
)
    requires
        0 <= i <= n,
        forall|j: int| 0 <= j < i ==> cost <= #[trigger] cut_cost(ls, a, from + j * step, b),
    ensures
        ({
            let r = cheapest_of(ls, a, b, from, step, n, i, at, cost);
            &&& r.1 <= cost
            &&& forall|j: int| 0 <= j < n ==> r.1 <= #[trigger] cut_cost(ls, a, from + j * step, b)
            &&& r == (at, cost) || (i <= r.0 < n && r.1 == cut_cost(ls, a, from + r.0 * step, b))
        }),
    decreases n - i,
{
    if i < n {
        let v = cut_cost(ls, a, from + i * step, b);
        if v < cost {
            assert forall|j: int| 0 <= j < i + 1 implies v <= #[trigger] cut_cost(
                ls,
                a,
                from + j * step,
                b,
            ) by {
                if j < i {
                    assert(cost <= cut_cost(ls, a, from + j * step, b));
                }
            }
            lemma_cheapest_of(ls, a, b, from, step, n, i + 1, i, v);
        } else {
            lemma_cheapest_of(ls, a, b, from, step, n, i + 1, at, cost);
        }
    }
}

/// The place and the cost that the search between `from` and `to` ends with: it tries nine
/// places, and goes on around the best of them as long as that one is no dearer than the
/// best before it.
pub open spec fn narrowed(
    ls: Seq<LitLen>,
    a: int,
    b: int,
    from: int,
    to: int,
    pos: int,
    cost: int,
) -> (int, int)
    decreases to - from,
{
    if to - from <= 9 {
        (pos, cost)
    } else {
        let m = (to - from) / 10;
        let (i, v) = cheapest_of(ls, a, b, from + m, m, 9, 0, 0, u64::MAX as int);
        if v > cost || !(0 <= i < 9) {
            (pos, cost)
        } else {
            let to1 = if i < 8 {
                from + (i + 2) * m
            } else {
                to
            };
            let from1 = if i > 0 {
                from + i * m
            } else {
                from
            };
            if !(0 <= to1 - from1 < to - from) {
                (from + (i + 1) * m, v)
            } else {
                narrowed(ls, a, b, from1, to1, from + (i + 1) * m, v)
            }
        }
    }
}

/// The place of the cheapest split that is looked for between `start` and `end`, and its
/// cost: all places are tried where there are few, else nine at a time.
pub open spec fn minimum(ls: Seq<LitLen>, a: int, b: int, start: int, end: int) -> (int, int) {
    if end - start < 1024 {
        let (i, v) = cheapest_of(ls, a, b, start, 1, end - start, 0, 0, u64::MAX as int);
        (start + i, v)
    } else {
        narrowed(ls, a, b, start, end, start, u64::MAX as int)
    }
}

/// Look for the cheapest split between `start` and `end`: all are tried where there are
/// few, else nine at a time, and the search goes on around the cheapest of them.
pub fn find_minimum(
    lz77: &Lz77Store,
    lstart: usize,
    lend: usize,
    start: usize,
    end: usize,
) -> (r: (usize, u64))
    requires
        lstart <= start < end <= lend <= lz77.litlens@.len(),
        lend - lstart < 0x3f_ffff,
        all_plain(lz77.litlens@),
    ensures
        start <= r.0 < end,
        (r.0 as int, r.1 as int) == minimum(
            lz77.litlens@,
            lstart as int,
            lend as int,
            start as int,
            end as int,
        ),
        r.1 == cut_cost(lz77.litlens@, lstart as int, r.0 as int, lend as int),
        end - start < 1024 ==> forall|m: int|
            start <= m < end ==> r.1 <= #[trigger] cut_cost(
                lz77.litlens@,
                lstart as int,
                m,
                lend as int,
            ),
{
    let ghost ls = lz77.litlens@;
    let ghost a = lstart as int;
    let ghost b = lend as int;
    let ghost max = u64::MAX as int;
    if end - start < 1024 {
        let ghost goal = cheapest_of(ls, a, b, start as int, 1, end - start, 0, 0, max);
        let mut best: u64 = u64::MAX;
        let mut result: usize = start;
        let mut i: usize = start;
        while i < end
            invariant
                ls == lz77.litlens@,
                a == lstart,
                b == lend,
                lstart <= start < end <= lend <= lz77.litlens@.len(),
                lend - lstart < 0x3f_ffff,
                all_plain(lz77.litlens@),
                start <= i <= end,
                start <= result < end,
                goal == cheapest_of(
                    ls,
                    a,
                    b,
                    start as int,
                    1,
                    end - start,
                    i - start,
                    result - start,
                    best as int,
                ),
                i > start ==> best == cut_cost(ls, a, result as int, b),
                i == start ==> best == u64::MAX,
            decreases end - i,
        {
            assert(start + (i - start) * 1 == i);
            let v: u64 = cost_of_split(lz77, lstart, i, lend);
            if v < best {
                best = v;
                result = i;
            }
            i = i + 1;
        }
        proof {
            lemma_cheapest_of(ls, a, b, start as int, 1, end - start, 0, 0, max);
            assert forall|m: int| start <= m < end implies best <= #[trigger] cut_cost(ls, a, m, b) by {
                assert(start + (m - start) * 1 == m);
                assert(best <= cut_cost(ls, a, start + (m - start) * 1, b));
            }
        }
        return (result, best);
    }
    let mut from: usize = start;
    let mut to: usize = end;
    let mut lastbest: u64 = u64::MAX;
    let mut pos: usize = start;
    let mut going: bool = true;
    let ghost goal = narrowed(ls, a, b, start as int, end as int, start as int, max);
    while going && to - from > 9
        invariant
            ls == lz77.litlens@,
            a == lstart,
            b == lend,
            max == u64::MAX,
            lstart <= start <= from <= to <= end <= lend <= lz77.litlens@.len(),
            lend - lstart < 0x3f_ffff,
            all_plain(lz77.litlens@),
            start <= pos < end,
            lastbest == u64::MAX ==> going && to - from > 9,
            lastbest < u64::MAX ==> lastbest == cut_cost(ls, a, pos as int, b),
            going ==> goal == narrowed(ls, a, b, from as int, to as int, pos as int, lastbest as int),
            !going ==> goal == (pos as int, lastbest as int),
        decreases to - from + if going { 1int } else { 0 },
    {
        let mut besti: usize = 0;
        let mut best: u64 = u64::MAX;
        let multiplier: usize = (to - from) / 10;
        let mut i: usize = 0;
        let ghost m = multiplier as int;
        let ghost nine = cheapest_of(ls, a, b, from + m, m, 9, 0, 0, max);
        while i < 9
            invariant
                ls == lz77.litlens@,
                a == lstart,
                b == lend,
                i <= 9,
                besti < 9,
                lstart <= from <= to <= lend <= lz77.litlens@.len(),
                lend - lstart < 0x3f_ffff,
                all_plain(lz77.litlens@),
                multiplier == (to - from) / 10,
                m == multiplier,
                nine == cheapest_of(ls, a, b, from + m, m, 9, i as int, besti as int, best as int),
                i == 0 ==> best == u64::MAX,
                i > 0 ==> best <= 0x8000_0000_0000 && best == cut_cost(
                    ls,
                    a,
                    from + (besti + 1) * multiplier,
                    b,
                ),
            decreases 9 - i,
        {
            assert((i + 1) * multiplier <= 9 * multiplier && (i + 1) * multiplier == m + i * m)
                by (nonlinear_arith)
                requires
                    i < 9,
                    multiplier >= 0,
                    m == multiplier,
            ;
            let v: u64 = cost_of_split(lz77, lstart, from + (i + 1) * multiplier, lend);
            if v < best {
                best = v;
                besti = i;
            }
            i = i + 1;
        }
        if best > lastbest {
            going = false;
        } else {
            assert(besti * multiplier <= 8 * multiplier && 0 <= besti * multiplier && (besti + 1)
                * multiplier == besti * multiplier + multiplier && (besti + 2) * multiplier == besti
                * multiplier + 2 * multiplier) by (nonlinear_arith)
                requires
                    besti < 9,
                    multiplier >= 0,
            ;
            assert(besti > 0 ==> besti * multiplier >= multiplier) by (nonlinear_arith)
                requires
                    besti >= 0,
                    multiplier >= 0,
            ;
            assert(besti < 8 ==> besti * multiplier <= 7 * multiplier) by (nonlinear_arith)
                requires
                    besti >= 0,
                    multiplier >= 0,
            ;
            let base: usize = from;
            if besti < 8 {
                to = base + (besti + 2) * multiplier;
            }
            if besti > 0 {
                from = base + besti * multiplier;
            }
            pos = base + (besti + 1) * multiplier;
            lastbest = best;
        }
    }
    (pos, lastbest)
}

/// How many entries are zero.
pub open spec fn zeros(s: Seq<u8>) -> nat
    decreases s.len(),
{
    if s.len() == 0 {
        0
    } else {
        zeros(s.drop_last()) + if s.last() == 0 {
            1nat
        } else {
            0
        }
    }
}

pub proof fn lemma_zeros_update(s: Seq<u8>, i: int)
    requires
        0 <= i < s.len(),
        s[i] == 0,
    ensures
        zeros(s.update(i, 1)) + 1 == zeros(s),
    decreases s.len(),
{
    let t = s.update(i, 1);
    if i == s.len() - 1 {
        assert(t.drop_last() =~= s.drop_last());
    } else {
        lemma_zeros_update(s.drop_last(), i);
        assert(t.drop_last() =~= s.drop_last().update(i, 1));
    }
}

/// Points in growing order, inside of the first `n` places.
pub open spec fn is_split(points: Seq<usize>, n: int) -> bool {
    &&& forall|k: int| 0 <= k < points.len() ==> 0 < #[trigger] points[k] < n
    &&& forall|j: int, k: int|
        0 <= j < k < points.len() ==> #[trigger] points[j] < #[trigger] points[k]
}

/// Where a point belongs, given that it does not belong before place `k`.
pub open spec fn place_of(points: Seq<usize>, p: usize, k: int) -> int
    decreases points.len() - k,
{
    if 0 <= k < points.len() && points[k] < p {
        place_of(points, p, k + 1)
    } else {
        k
    }
}

pub proof fn lemma_place_of(points: Seq<usize>, p: usize, k: int)
    requires
        0 <= k <= points.len(),
    ensures
        k <= place_of(points, p, k) <= points.len(),
    decreases points.len() - k,
{
    if k < points.len() && points[k] < p {
        lemma_place_of(points, p, k + 1);
    }
}

/// The points with one more, in order.
pub open spec fn with_point(points: Seq<usize>, p: usize) -> Seq<usize> {
    points.insert(place_of(points, p, 0), p)
}

/// Insert a point in order.
fn insert_point(points: &mut Vec<usize>, p: usize, n: Ghost<int>)
    requires
        is_split(old(points)@, n@),
        0 < p < n@,
        forall|k: int| 0 <= k < old(points)@.len() ==> #[trigger] old(points)@[k] != p,
    ensures
        is_split(final(points)@, n@),
        final(points)@ == with_point(old(points)@, p),
        final(points)@.len() == old(points)@.len() + 1,
        forall|q: usize|
            #[trigger] final(points)@.contains(q) <==> q == p || old(points)@.contains(q),
{
    let mut k: usize = 0;
    while k < points.len() && points[k] < p
        invariant
            k <= points@.len(),
            *points == *old(points),
            forall|j: int| 0 <= j < k ==> #[trigger] points@[j] < p,
            place_of(points@, p, 0) == place_of(points@, p, k as int),
        decreases points@.len() - k,
    {
        k = k + 1;
    }
    let ghost s0 = points@;
    points.insert(k, p);
    proof {
        let s1 = points@;
        assert forall|j: int| 0 <= j < s1.len() implies #[trigger] s1[j] == if j < k {
            s0[j]
        } else if j == k {
            p
        } else {
            s0[j - 1]
        } by {}
        assert forall|j: int, m: int|
            0 <= j < m < s1.len() implies #[trigger] s1[j] < #[trigger] s1[m] by {
            if j < k && m > k {
                assert(s0[j] < s0[m - 1]);
            } else if j == k {
                assert(s0[k as int] > p);
                if m - 1 > k {
                    assert(s0[k as int] < s0[m - 1]);
                }
            }
        }
        assert forall|q: usize| #[trigger] s1.contains(q) <==> q == p || s0.contains(q) by {
            if s1.contains(q) {
                let j = choose|j: int| 0 <= j < s1.len() && s1[j] == q;
                if j < k {
                    assert(s0[j] == q);
                } else if j > k {
                    assert(s0[j - 1] == q);
                }
            }
            if q == p {
                assert(s1[k as int] == q);
            }
            if s0.contains(q) {
                let j = choose|j: int| 0 <= j < s0.len() && s0[j] == q;
                if j < k {
                    assert(s1[j] == q);
                } else {
                    assert(s1[j + 1] == q);
                }
            }
        }
    }
}

/// No point lies strictly between two places.
spec fn gap(points: Seq<usize>, a: int, b: int) -> bool {
    forall|k: int| 0 <= k < points.len() ==> #[trigger] points[k] <= a || points[k] >= b
}

/// The first of the longest stretches between points that has not been given up, given
/// the longest one before the `k`th point.
pub open spec fn stretch_from(
    points: Seq<usize>,
    done: Seq<u8>,
    size: int,
    k: int,
    last: int,
    longest: int,
    best: Option<(int, int)>,
) -> Option<(int, int)>
    decreases points.len() - k,
{
    if 0 <= k < points.len() {
        let p = points[k] as int;
        if done[last] == 0 && p - last > longest {
            stretch_from(points, done, size, k + 1, p, p - last, Some((last, p)))
        } else {
            stretch_from(points, done, size, k + 1, p, longest, best)
        }
    } else if done[last] == 0 && size - 1 - last > longest {
        Some((last, size - 1))
    } else {
        best
    }
}

/// The first of the longest stretches between points that has not been given up, if there
/// is one. The last stretch is taken to end one place early.
pub open spec fn longest_of(points: Seq<usize>, done: Seq<u8>, size: int) -> Option<(int, int)> {
    stretch_from(points, done, size, 0, 0, 0, None)
}

/// Two places as numbers.
pub open spec fn places(r: Option<(usize, usize)>) -> Option<(int, int)> {
    match r {
        Some((a, b)) => Some((a as int, b as int)),
        None => None,
    }
}

/// The longest stretch between points that has not been given up, if there is one. The
/// last stretch is taken to end one place early.
fn longest_stretch(points: &Vec<usize>, done: &Vec<u8>, size: usize) -> (r: Option<(usize, usize)>)
    requires
        is_split(points@, size as int),
        done@.len() == size,
        0 < size,
    ensures
        places(r) == longest_of(points@, done@, size as int),
        r matches Some(x) ==> x.0 < x.1 < size && done@[x.0 as int] == 0 && gap(
            points@,
            x.0 as int,
            x.1 as int,
        ),
{
    let mut longest: usize = 0;
    let mut best: Option<(usize, usize)> = None;
    let mut last: usize = 0;
    let mut k: usize = 0;
    while k < points.len()
        invariant
            is_split(points@, size as int),
            done@.len() == size,
            k <= points@.len(),
            last == if k == 0 {
                0
            } else {
                points@[k - 1]
            },
            last < size,
            longest_of(points@, done@, size as int) == stretch_from(
                points@,
                done@,
                size as int,
                k as int,
                last as int,
                longest as int,
                places(best),
            ),
            best matches Some(x) ==> x.0 < x.1 < size && done@[x.0 as int] == 0 && gap(
                points@,
                x.0 as int,
                x.1 as int,
            ),
        decreases points@.len() - k,
    {
        let item: usize = points[k];
        proof {
            if k > 0 {
                assert(points@[k - 1] < points@[k as int]);
            }
        }
        if done[last] == 0 && item - last > longest {
            best = Some((last, item));
            longest = item - last;
            proof {
                assert forall|j: int| 0 <= j < points@.len() implies #[trigger] points@[j] <= last
                    || points@[j] >= item by {
                    if j < k - 1 {
                        assert(points@[j] < points@[k - 1]);
                    }
                    if j > k {
                        assert(points@[k as int] < points@[j]);
                    }
                }
            }
        }
        last = item;
        k = k + 1;
    }
    let end: usize = size - 1;
    if done[last] == 0 && end - last > longest {
        best = Some((last, end));
        proof {
            assert forall|j: int| 0 <= j < points@.len() implies #[trigger] points@[j] <= last || points@[j]
                >= end by {
                if j < k - 1 {
                    assert(points@[j] < points@[k - 1]);
                }
            }
        }
    }
    best
}

/// What becomes of the points and of what has been given up when the stretch from `a` to
/// `b` is looked at: it is split at the place that the search finds, or given up where
/// that is dearer or lies at an end.
pub open spec fn split_once(
    ls: Seq<LitLen>,
    points: Seq<usize>,
    done: Seq<u8>,
    a: int,
    b: int,
) -> (Seq<usize>, Seq<u8>) {
    let (p, cost) = minimum(ls, a, b, a + 1, b);
    if cost > part_cost(ls.subrange(a, b)) || p == a + 1 || p == b {
        (points, done.update(a, 1))
    } else {
        (with_point(points, p as usize), done)
    }
}

/// The points that splitting ends with when the stretch from `a` to `b` is the next one:
/// it goes on with the longest stretch, until there are enough blocks or all stretches
/// are short or given up.
pub open spec fn splits_from(
    ls: Seq<LitLen>,
    maxblocks: int,
    points: Seq<usize>,
    done: Seq<u8>,
    a: int,
    b: int,
) -> Seq<usize>
    decreases maxblocks - points.len(), zeros(done),
{
    if points.len() + 1 >= maxblocks || !(0 <= a < done.len()) || done[a] != 0 {
        points
    } else {
        let (points1, done1) = split_once(ls, points, done, a, b);
        proof {
            lemma_zeros_update(done, a);
            lemma_place_of(points, minimum(ls, a, b, a + 1, b).0 as usize, 0);
        }
        match longest_of(points1, done1, ls.len() as int) {
            Some((x, y)) => if y - x < 10 {
                points1
            } else {
                splits_from(ls, maxblocks, points1, done1, x, y)
            },
            None => points1,
        }
    }
}

/// The points by which literals and matches are split into at most `maxblocks` blocks.
pub open spec fn split_points(ls: Seq<LitLen>, maxblocks: int) -> Seq<usize> {
    if ls.len() < 10 {
        Seq::empty()
    } else {
        splits_from(
            ls,
            maxblocks,
            Seq::empty(),
            Seq::new(ls.len(), |k: int| 0u8),
            0,
            ls.len() as int,
        )
    }
}

/// Split literals and matches into at most `maxblocks` blocks, as long as it makes them
/// cheaper: each time the longest block that has not been given up is split where it is
/// cheapest, or given up.
#[verifier::rlimit(30)]
pub fn blocksplit_lz77(lz77: &Lz77Store, maxblocks: u16) -> (splitpoints: Vec<usize>)
    requires
        lz77.litlens@.len() < 0x3f_ffff,
        all_plain(lz77.litlens@),
    ensures
        splitpoints@ == split_points(lz77.litlens@, maxblocks as int),
        is_split(splitpoints@, lz77.litlens@.len() as int),
        splitpoints@.len() == 0 || splitpoints@.len() < maxblocks,
        lz77.litlens@.len() < 10 ==> splitpoints@.len() == 0,
{
    let mut splitpoints: Vec<usize> = Vec::new();
    let size: usize = lz77.size();
    if size < 10 {
        return splitpoints;
    }
    let mut numblocks: u16 = 1;
    let mut done: Vec<u8> = vec![0u8; size];
    let mut lstart: usize = 0;
    let mut lend: usize = size;
    let mut going: bool = true;
    let ghost goal = split_points(lz77.litlens@, maxblocks as int);
    proof {
        assert(done@ =~= Seq::new(lz77.litlens@.len(), |k: int| 0u8));
        assert(splitpoints@ =~= Seq::empty());
    }
    while going && numblocks < maxblocks
        invariant
            goal == if going {
                splits_from(
                    lz77.litlens@,
                    maxblocks as int,
                    splitpoints@,
                    done@,
                    lstart as int,
                    lend as int,
                )
            } else {
                splitpoints@
            },
            size == lz77.litlens@.len(),
            10 <= size < 0x3f_ffff,
            all_plain(lz77.litlens@),
            done@.len() == size,
            1 <= numblocks,
            numblocks == splitpoints@.len() + 1,
            numblocks <= maxblocks || numblocks == 1,
            is_split(splitpoints@, size as int),
            lstart < lend <= size,
            going ==> lend - lstart >= 10 && done@[lstart as int] == 0 && gap(
                splitpoints@,
                lstart as int,
                lend as int,
            ),
        decreases maxblocks - numblocks, zeros(done@) + if going { 1int } else { 0 },
    {
        let (llpos, splitcost) = find_minimum(lz77, lstart, lend, lstart + 1, lend);
        let origcost: u64 = calculate_block_size_dynamic(lz77, lstart, lend);
        if splitcost > origcost || llpos == lstart + 1 || llpos == lend {
            proof {
                lemma_zeros_update(done@, lstart as int);
            }
            done.set(lstart, 1);
        } else {
            insert_point(&mut splitpoints, llpos, Ghost(size as int));
            numblocks = numblocks + 1;
        }
        match longest_stretch(&splitpoints, &done, size) {
            Some((a, b)) => {
                lstart = a;
                lend = b;
                if b - a < 10 {
                    going = false;
                }
            },
            None => {
                going = false;
            },
        }
    }
    splitpoints
}

/// Where in the data the literals and matches behind the points start.
pub open spec fn byte_points(ls: Seq<LitLen>, points: Seq<usize>, base: int) -> Seq<usize> {
    Seq::new(points.len(), |k: int| store::end_of(ls.take(points[k] as int), base) as usize)
}

/// Split data into at most `maxblocks` blocks, by a greedy parse of it.
#[verifier::rlimit(30)]
pub fn blocksplit(in_data: &[u8], instart: usize, inend: usize, maxblocks: u16) -> (splitpoints: Vec<
    usize,
>)
    requires
        instart <= inend <= in_data@.len(),
        inend - instart < 0x3f_ffff,
    ensures
        splitpoints@ == byte_points(
            store::greedy_parse(in_data@, instart as int, inend as int),
            split_points(
                store::greedy_parse(in_data@, instart as int, inend as int),
                maxblocks as int,
            ),
            instart as int,
        ),
        splitpoints@.len() == 0 || splitpoints@.len() < maxblocks,
        forall|k: int| 0 <= k < splitpoints@.len() ==> instart < #[trigger] splitpoints@[k] < inend,
        forall|j: int, k: int|
            0 <= j < k < splitpoints@.len() ==> #[trigger] splitpoints@[j]
                < #[trigger] splitpoints@[k],
{
    let mut splitpoints: Vec<usize> = Vec::new();
    let mut lz77: Lz77Store = Lz77Store::new();
    lz77.greedy(in_data, instart, inend);
    let ghost ls = lz77.litlens@;
    let ghost b = instart as int;
    proof {
        lemma_plain(ls, in_data@, b);
        store::lemma_within(ls, in_data@, b);
    }
    let points: Vec<usize> = blocksplit_lz77(&lz77, maxblocks);
    let size: usize = lz77.size();
    let mut pos: usize = instart;
    let mut i: usize = 0;
    proof {
        assert(ls.take(0) =~= Seq::empty());
        assert(store::items_of(ls.take(0)) =~= Seq::empty());
    }
    while splitpoints.len() < points.len()
        invariant
            ls == lz77.litlens@,
            size == ls.len(),
            b == instart,
            store::stands_for(ls, in_data@, b),
            store::end_of(ls, b) == inend,
            inend <= in_data@.len(),
            is_split(points@, ls.len() as int),
            i <= ls.len(),
            splitpoints@.len() <= points@.len(),
            pos == store::end_of(ls.take(i as int), b),
            instart <= pos <= inend,
            i > 0 ==> pos > instart,
            splitpoints@.len() < points@.len() ==> i <= points@[splitpoints@.len() as int],
            forall|k: int|
                0 <= k < splitpoints@.len() ==> instart < #[trigger] splitpoints@[k] < inend
                    && splitpoints@[k] < pos,
            forall|k: int|
                0 <= k < splitpoints@.len() ==> #[trigger] splitpoints@[k] == byte_points(
                    ls,
                    points@,
                    b,
                )[k],
            forall|j: int, k: int|
                0 <= j < k < splitpoints@.len() ==> #[trigger] splitpoints@[j]
                    < #[trigger] splitpoints@[k],
        decreases ls.len() - i,
    {
        let n: usize = splitpoints.len();
        assert(points@[n as int] < ls.len());
        let length: usize = lz77.litlens[i].size();
        proof {
            store::lemma_take(ls, in_data@, b, i as int);
            assert(ls.take(i + 1) =~= ls.take(i as int).push(ls[i as int]));
            store::lemma_push(ls.take(i as int), ls[i as int], in_data@, b);
            lemma_end_mono(ls, in_data@, b, i + 1);
        }
        if points[n] == i {
            splitpoints.push(pos);
            proof {
                if n + 1 < points@.len() {
                    assert(points@[n as int] < points@[n + 1]);
                }
            }
        }
        pos = pos + length;
        i = i + 1;
    }
    assert(splitpoints@ =~= byte_points(ls, points@, b));
    splitpoints
}

/// The first literals and matches end no later than all of them.
proof fn lemma_end_mono(ls: Seq<LitLen>, h: Seq<u8>, base: int, k: int)
    requires
        store::stands_for(ls, h, base),
        0 <= k <= ls.len(),
    ensures
        store::end_of(ls.take(k), base) <= store::end_of(ls, base),
        k < ls.len() ==> store::end_of(ls.take(k), base) < store::end_of(ls, base),
    decreases ls.len() - k,
{
    if k == ls.len() {
        assert(ls.take(k) =~= ls);
    } else {
        store::lemma_take(ls, h, base, k);
        assert(ls.take(k + 1) =~= ls.take(k).push(ls[k]));
        store::lemma_push(ls.take(k), ls[k], h, base);
        lemma_end_mono(ls, h, base, k + 1);
    }
}

/// The search for a split never ends with a dearer one than it began with.
proof fn lemma_narrowed(ls: Seq<LitLen>, a: int, b: int, from: int, to: int, pos: int, cost: int)
    ensures
        narrowed(ls, a, b, from, to, pos, cost).1 <= cost,
    decreases to - from,
{
    if to - from > 9 {
        let m = (to - from) / 10;
        let (i, v) = cheapest_of(ls, a, b, from + m, m, 9, 0, 0, u64::MAX as int);
        if v <= cost && 0 <= i < 9 {
            let to1 = if i < 8 {
                from + (i + 2) * m
            } else {
                to
            };
            let from1 = if i > 0 {
                from + i * m
            } else {
                from
            };
            if 0 <= to1 - from1 < to - from {
                lemma_narrowed(ls, a, b, from1, to1, from + (i + 1) * m, v);
            }
        }
    }
}

/// Where there are many places, the split that is found is no dearer than one at any tenth of
/// the way.
pub proof fn law_tenths_are_tried(ls: Seq<LitLen>, a: int, b: int, start: int, end: int, j: int)
    requires
        end - start >= 1024,
        1 <= j <= 9,
    ensures
        minimum(ls, a, b, start, end).1 <= cut_cost(ls, a, start + j * ((end - start) / 10), b),
{
    let m = (end - start) / 10;
    let max = u64::MAX as int;
    let (i, v) = cheapest_of(ls, a, b, start + m, m, 9, 0, 0, max);
    lemma_cheapest_of(ls, a, b, start + m, m, 9, 0, 0, max);
    assert(start + m + (j - 1) * m == start + j * m) by (nonlinear_arith);
    assert(v <= cut_cost(ls, a, start + m + (j - 1) * m, b));
    let to1 = if i < 8 {
        start + (i + 2) * m
    } else {
        end
    };
    let from1 = if i > 0 {
        start + i * m
    } else {
        start
    };
    lemma_narrowed(ls, a, b, from1, to1, start + (i + 1) * m, v);
}

/// The search for a split ends with a place and what a split there costs.
proof fn lemma_narrowed_place(
    ls: Seq<LitLen>,
    a: int,
    b: int,
    from: int,
    to: int,
    pos: int,
    cost: int,
    lo: int,
    hi: int,
)
    requires
        lo <= from <= to <= hi,
        lo <= pos < hi,
        cost == cut_cost(ls, a, pos, b) || (cost == u64::MAX && to - from > 9),
        forall|m: int| lo <= m < hi ==> #[trigger] cut_cost(ls, a, m, b) < u64::MAX,
    ensures
        ({
            let r = narrowed(ls, a, b, from, to, pos, cost);
            lo <= r.0 < hi && r.1 == cut_cost(ls, a, r.0, b)
        }),
    decreases to - from,
{
    if to - from > 9 {
        let m = (to - from) / 10;
        let max = u64::MAX as int;
        let (i, v) = cheapest_of(ls, a, b, from + m, m, 9, 0, 0, max);
        lemma_cheapest_of(ls, a, b, from + m, m, 9, 0, 0, max);
        assert(from + m + 0 * m == from + m);
        assert(cut_cost(ls, a, from + m, b) < max);
        assert(v <= cut_cost(ls, a, from + m + 0 * m, b));
        assert(0 <= i < 9);
        assert(0 <= i * m <= 8 * m && (i + 1) * m == i * m + m && (i + 2) * m == i * m + 2 * m && (i
            < 8 ==> i * m <= 7 * m)) by (nonlinear_arith)
            requires
                0 <= i < 9,
                m >= 0,
        ;
        if v <= cost {
            let to1 = if i < 8 {
                from + (i + 2) * m
            } else {
                to
            };
            let from1 = if i > 0 {
                from + i * m
            } else {
                from
            };
            if 0 <= to1 - from1 < to - from {
                lemma_narrowed_place(ls, a, b, from1, to1, from + (i + 1) * m, v, lo, hi);
            }
        }
    }
}

/// A stretch is split only where its two parts cost no more than it did.
pub proof fn law_split_pays(
    ls: Seq<LitLen>,
    points: Seq<usize>,
    done: Seq<u8>,
    a: int,
    b: int,
    p: usize,
)
    requires
        0 <= a,
        a + 1 < b <= ls.len() <= usize::MAX,
        forall|m: int| a < m < b ==> #[trigger] cut_cost(ls, a, m, b) < u64::MAX,
        !points.contains(p),
        split_once(ls, points, done, a, b).0.contains(p),
    ensures
        a < p < b,
        part_cost(ls.subrange(a, p as int)) + part_cost(ls.subrange(p as int, b)) <= part_cost(
            ls.subrange(a, b),
        ),
        split_once(ls, points, done, a, b).1 == done,
{
    lemma_minimum_place(ls, a, b);
    let (m, cost) = minimum(ls, a, b, a + 1, b);
    lemma_place_of(points, m as usize, 0);
    let q = split_once(ls, points, done, a, b).0;
    let j = choose|j: int| 0 <= j < q.len() && q[j] == p;
    let k = place_of(points, m as usize, 0);
    if j != k {
        assert(points.contains(if j < k {
            points[j]
        } else {
            points[j - 1]
        }));
    }
}

/// The place of the cheapest split of a stretch lies inside of it.
proof fn lemma_minimum_place(ls: Seq<LitLen>, a: int, b: int)
    requires
        a + 1 < b,
        forall|m: int| a < m < b ==> #[trigger] cut_cost(ls, a, m, b) < u64::MAX,
    ensures
        ({
            let r = minimum(ls, a, b, a + 1, b);
            a < r.0 < b && r.1 == cut_cost(ls, a, r.0, b)
        }),
{
    let start = a + 1;
    let max = u64::MAX as int;
    if b - start < 1024 {
        let (i, v) = cheapest_of(ls, a, b, start, 1, b - start, 0, 0, max);
        lemma_cheapest_of(ls, a, b, start, 1, b - start, 0, 0, max);
        assert(cut_cost(ls, a, start, b) < max);
        assert(v <= cut_cost(ls, a, start + 0 * 1, b));
        assert(start + i * 1 == start + i);
    } else {
        lemma_narrowed_place(ls, a, b, start, b, start, max, start, b);
    }
}

/// A short stretch is split if the cheapest place is not the first one and its two parts cost
/// no more than it did; the place is the cheapest one.
pub proof fn law_cheap_split_is_made(
    ls: Seq<LitLen>,
    points: Seq<usize>,
    done: Seq<u8>,
    a: int,
    b: int,
    m: int,
)
    requires
        0 <= a,
        a + 1 < m < b <= ls.len() <= usize::MAX,
        b - a < 1024,
        forall|k: int| a < k < b ==> #[trigger] cut_cost(ls, a, k, b) < u64::MAX,
        part_cost(ls.subrange(a, m)) + part_cost(ls.subrange(m, b)) <= part_cost(
            ls.subrange(a, b),
        ),
        cut_cost(ls, a, m, b) < cut_cost(ls, a, a + 1, b),
    ensures
        split_once(ls, points, done, a, b).0.len() == points.len() + 1,
        exists|p: usize|
            #[trigger] split_once(ls, points, done, a, b).0.contains(p) && a < p < b && cut_cost(
                ls,
                a,
                p as int,
                b,
            ) <= cut_cost(ls, a, m, b),
{
    lemma_minimum_place(ls, a, b);
    let start = a + 1;
    let max = u64::MAX as int;
    let (i, v) = cheapest_of(ls, a, b, start, 1, b - start, 0, 0, max);
    lemma_cheapest_of(ls, a, b, start, 1, b - start, 0, 0, max);
    assert(start + (m - start) * 1 == m);
    assert(v <= cut_cost(ls, a, start + (m - start) * 1, b));
    let p = (start + i) as usize;
    lemma_place_of(points, p, 0);
    let q = split_once(ls, points, done, a, b).0;
    assert(q[place_of(points, p, 0)] == p);
    assert(q.contains(p));
}

/// The stretch that is looked at next has not been given up, and no other that has not been
/// is longer.
pub proof fn law_longest_stretch(points: Seq<usize>, done: Seq<u8>, size: int, k: int)
    requires
        is_split(points, size),
        0 < size,
        0 <= k <= points.len(),
    ensures
        ({
            let last = if k == 0 {
                0
            } else {
                points[k - 1] as int
            };
            let end = if k < points.len() {
                points[k] as int
            } else {
                size - 1
            };
            done[last] == 0 && end > last ==> {
                &&& longest_of(points, done, size) matches Some(x)
                &&& x.1 - x.0 >= end - last
            }
        }),
        longest_of(points, done, size) matches Some(x) ==> done[x.0] == 0 && x.0 < x.1,
{
    lemma_stretch(points, done, size, 0, 0, 0, None, k);
}

/// No stretch from the `i`th point on is longer than the one chosen.
proof fn lemma_stretch(
    points: Seq<usize>,
    done: Seq<u8>,
    size: int,
    i: int,
    last: int,
    longest: int,
    best: Option<(int, int)>,
    k: int,
)
    requires
        0 <= i <= points.len(),
        0 <= k <= points.len(),
        last == if i == 0 {
            0
        } else {
            points[i - 1] as int
        },
        0 <= longest,
        best is None ==> longest == 0,
        best matches Some(x) ==> done[x.0] == 0 && x.1 - x.0 == longest && longest > 0,
    ensures
        ({
            let r = stretch_from(points, done, size, i, last, longest, best);
            let from = if k == 0 {
                0
            } else {
                points[k - 1] as int
            };
            let end = if k < points.len() {
                points[k] as int
            } else {
                size - 1
            };
            &&& best is Some ==> r is Some
            &&& r matches Some(x) ==> done[x.0] == 0 && x.0 < x.1 && x.1 - x.0 >= longest
            &&& k >= i && done[from] == 0 && end > from ==> {
                &&& r matches Some(x)
                &&& x.1 - x.0 >= end - from
            }
        }),
    decreases points.len() - i,
{
    if i < points.len() {
        let p = points[i] as int;
        if done[last] == 0 && p - last > longest {
            lemma_stretch(points, done, size, i + 1, p, p - last, Some((last, p)), k);
        } else {
            lemma_stretch(points, done, size, i + 1, p, longest, best, k);
        }
    }
}

} // verus!
