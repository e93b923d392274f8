//! Blocks with very many matches take little room in near-optimal compression.
//!
//! A block ends where the cache of matches is full. If it is short then, there are so many
//! matches at each of its positions that the cheapest way through it with the static codes
//! takes fewer bits than its bytes.

use crate::compress::bitstream::OutputBitstream;
use crate::compress::block;
use crate::compress::block_laws;
use crate::compress::block_split;
use crate::compress::costs::Prices;
use crate::compress::items;
use crate::compress::near_model;
use crate::compress::near_model::{Fill, Near, Tuning, Way};
use crate::compress::near_optimal;
use crate::compress::progress;
use crate::constants::{DEFLATE_LENGTH_EXTRA_BITS, DEFLATE_OFFSET_EXTRA_BITS};
use crate::matchfinder::bt;
use crate::matchfinder::bt::LzMatch;
use crate::stream;
use vstd::prelude::*;

verus! {

/// What items cost with the static codes.
proof fn lemma_static_prices()
    ensures
        ({
            let p = near_model::static_prices();
            &&& forall|i: int| 0 <= i < 256 ==> 0 <= #[trigger] p.lit[i] <= 144
            &&& forall|i: int| 3 <= i < 259 ==> 0 <= #[trigger] p.len[i] <= 208
            &&& forall|i: int| 0 <= i < 30 ==> 0 <= #[trigger] p.slot[i] <= 288
        }),
{
    let p = near_model::static_prices();
    assert forall|i: int| 3 <= i < 259 implies 0 <= #[trigger] p.len[i] <= 208 by {
        items::lemma_slots(i, 1);
        let s = items::length_slot_of(i);
        assert(DEFLATE_LENGTH_EXTRA_BITS@[s] <= 5);
    }
    assert forall|i: int| 0 <= i < 30 implies 0 <= #[trigger] p.slot[i] <= 288 by {
        assert(DEFLATE_OFFSET_EXTRA_BITS@[i] <= 13);
    }
}

/// Looking at matches makes the way no dearer.
pub proof fn lemma_over_best(
    p: Prices,
    rest: Seq<Way>,
    ms: Seq<(int, int)>,
    k: int,
    l: int,
    best: Way,
)
    ensures
        near_model::over_matches(p, rest, ms, k, l, best).cost <= best.cost,
    decreases ms.len() - k, ms[k].0 + 1 - l,
{
    if 0 <= k < ms.len() {
        if l > ms[k].0 {
            lemma_over_best(p, rest, ms, k + 1, l, best);
        } else {
            let cost = p.slot[items::offset_slot_of(ms[k].1)] + p.len[l] + rest[l - 1].cost;
            let b = if l <= rest.len() && cost < best.cost {
                Way { cost, len: l, arg: ms[k].1 }
            } else {
                best
            };
            lemma_over_best(p, rest, ms, k, l + 1, b);
        }
    }
}

/// A way is no dearer than a match of any length up to that of the longest one.
proof fn lemma_over_match(
    rest: Seq<Way>,
    ms: Seq<(int, int)>,
    h: Seq<u8>,
    at: int,
    k: int,
    l: int,
    best: Way,
    x: int,
)
    requires
        bt::matches_ok(h, at, 258, ms),
        0 <= k,
        3 <= l <= x,
        ms.len() > 0,
        x <= ms.last().0,
        x <= rest.len(),
        k < ms.len() || x > ms.last().0,
    ensures
        near_model::over_matches(near_model::static_prices(), rest, ms, k, l, best).cost <= 496
            + rest[x - 1].cost,
    decreases ms.len() - k, ms[k].0 + 1 - l,
{
    let p = near_model::static_prices();
    lemma_static_prices();
    if l > ms[k].0 {
        if k == ms.len() - 1 {
            assert(ms.last() == ms[k]);
        }
        lemma_over_match(rest, ms, h, at, k + 1, l, best, x);
    } else {
        let o = items::offset_slot_of(ms[k].1);
        items::lemma_slots(l, ms[k].1);
        assert(3 <= ms[k].0 <= 258);
        let cost = p.slot[o] + p.len[l] + rest[l - 1].cost;
        let b = if l <= rest.len() && cost < best.cost {
            Way { cost, len: l, arg: ms[k].1 }
        } else {
            best
        };
        if l == x {
            assert(p.slot[o] <= 288);
            assert(p.len[l] <= 208);
            lemma_over_best(p, rest, ms, k, l + 1, b);
        } else {
            lemma_over_match(rest, ms, h, at, k, l + 1, b, x);
        }
    }
}

/// Rewinding twice.
proof fn lemma_rewound_twice(c: Seq<LzMatch>, a: nat, b: nat)
    ensures
        near_optimal::rewound(near_optimal::rewound(c, a), b) == near_optimal::rewound(c, a + b),
    decreases a,
{
    if a > 0 {
        lemma_rewound_twice(near_optimal::peeled(c), (a - 1) as nat, b);
        assert((a + b - 1) as nat == (a - 1) as nat + b);
    }
}

/// How many entries a cache of `n` positions holds for those from `i` on.
spec fn entries_from(c: Seq<LzMatch>, n: int, i: int) -> int {
    c.len() - near_optimal::rewound(c, (n - i) as nat).len()
}

/// There are not many entries between two positions.
proof fn lemma_entries(h: Seq<u8>, base: int, c: Seq<LzMatch>, n: int, i: int, j: int)
    requires
        near_optimal::cache_ok(h, base, base + n, c),
        0 <= i <= j <= n,
    ensures
        entries_from(c, n, i) <= entries_from(c, n, j) + 257 * (j - i),
        entries_from(c, n, j) >= 0,
{
    near_optimal::lemma_rewound(h, base, base + n, c, (n - j) as nat);
    let d = near_optimal::rewound(c, (n - j) as nat);
    lemma_rewound_twice(c, (n - j) as nat, (j - i) as nat);
    assert((n - j) as nat + (j - i) as nat == (n - i) as nat);
    near_optimal::lemma_rewound(h, base, base + j, d, (j - i) as nat);
    let e = near_optimal::rewound(d, (j - i) as nat);
    near_optimal::lemma_cache_len(h, base + i, base + j, d.skip(e.len() as int));
}

/// The ways from a later position.
pub proof fn lemma_ways_at(p: Prices, c: Seq<LzMatch>, n: int, i: int, m: int)
    requires
        0 <= m,
        i + m <= n,
    ensures
        near_model::ways_from(p, c, n, i)[m] == near_model::ways_from(p, c, n, i + m)[0],
    decreases m,
{
    near_model::lemma_ways_len(p, c, n, i);
    if m > 0 {
        near_model::lemma_ways_len(p, c, n, i + 1);
        lemma_ways_at(p, c, n, i + 1, m - 1);
        assert(near_model::ways_from(p, c, n, i)[m] == near_model::ways_from(p, c, n, i + 1)[m
            - 1]);
    }
}

/// The cheapest way from a position with the static codes is the cheaper the more matches
/// there are.
proof fn lemma_ways_cheap(h: Seq<u8>, base: int, c: Seq<LzMatch>, n: int, i: int)
    requires
        near_optimal::cache_ok(h, base, base + n, c),
        0 <= i <= n,
    ensures
        25 * near_model::ways_from(near_model::static_prices(), c, n, i)[0].cost <= 16 * (275 * (n
            - i) - entries_from(c, n, i) + 10000),
        near_model::ways_from(near_model::static_prices(), c, n, i)[0].cost <= 144 * (n - i),
    decreases n - i,
{
    let p = near_model::static_prices();
    if i < n {
        let rest = near_model::ways_from(p, c, n, i + 1);
        let e = near_optimal::rewound(c, (n - 1 - i) as nat);
        let ms = near_optimal::last_matches(e);
        let lit = e.last().offset as int;
        let first = Way { cost: p.lit[lit] + rest[0].cost, len: 1, arg: lit };
        near_optimal::lemma_rewound(h, base, base + n, c, (n - 1 - i) as nat);
        near_optimal::lemma_rewound_step(c, (n - 1 - i) as nat);
        assert((n - 1 - i) as nat + 1 == (n - i) as nat);
        near_model::lemma_ways_len(p, c, n, i + 1);
        lemma_static_prices();
        assert(ms.len() == e.last().length);
        assert(entries_from(c, n, i) == entries_from(c, n, i + 1) + ms.len() + 1);
        lemma_entries(h, base, c, n, i, n);
        lemma_entries(h, base, c, n, i, i + 1);
        lemma_ways_cheap(h, base, c, n, i + 1);
        lemma_over_best(p, rest, ms, 0, 3, first);
        assert(near_model::ways_from(p, c, n, i)[0] == near_model::best_way(p, rest, lit, ms));
        assert(p.lit[lit] <= 144);
        if n - i > 48 && ms.len() >= 50 {
            bt::lemma_longer(h, base + i, 258, ms, ms.len() as int);
            assert(ms.last().0 >= 52);
            let x = if ms.last().0 <= n - i {
                ms.last().0
            } else {
                n - i
            };
            lemma_over_match(rest, ms, h, base + i, 0, 3, first, x);
            lemma_ways_at(p, c, n, i + 1, x - 1);
            lemma_ways_cheap(h, base, c, n, i + x);
            lemma_entries(h, base, c, n, i, i + x);
        }
    }
}

/// A way on is a literal or one of the matches, and costs what it costs.
pub open spec fn way_ok(p: Prices, rest: Seq<Way>, lit: int, ms: Seq<(int, int)>, w: Way) -> bool {
    if w.len == 1 {
        w.arg == lit && w.cost == p.lit[lit] + rest[0].cost
    } else {
        &&& 3 <= w.len <= rest.len()
        &&& w.cost == p.slot[items::offset_slot_of(w.arg)] + p.len[w.len] + rest[w.len - 1].cost
        &&& exists|k: int|
            0 <= k < ms.len() && (#[trigger] ms[k]).1 == w.arg && w.len <= ms[k].0
    }
}

pub proof fn lemma_over_ok(
    p: Prices,
    rest: Seq<Way>,
    lit: int,
    ms: Seq<(int, int)>,
    k: int,
    l: int,
    best: Way,
)
    requires
        way_ok(p, rest, lit, ms, best),
        0 <= k,
        3 <= l,
    ensures
        way_ok(p, rest, lit, ms, near_model::over_matches(p, rest, ms, k, l, best)),
    decreases ms.len() - k, ms[k].0 + 1 - l,
{
    if k < ms.len() {
        if l > ms[k].0 {
            lemma_over_ok(p, rest, lit, ms, k + 1, l, best);
        } else {
            let cost = p.slot[items::offset_slot_of(ms[k].1)] + p.len[l] + rest[l - 1].cost;
            let b = if l <= rest.len() && cost < best.cost {
                Way { cost, len: l, arg: ms[k].1 }
            } else {
                best
            };
            lemma_over_ok(p, rest, lit, ms, k, l + 1, b);
        }
    }
}

/// The items of the cheapest way with the static codes take the bits that it costs.
pub proof fn lemma_walk_cost(h: Seq<u8>, base: int, c: Seq<LzMatch>, n: int, cur: int)
    requires
        near_optimal::cache_ok(h, base, base + n, c),
        0 <= base,
        base + n <= h.len(),
        0 <= cur <= n,
    ensures
        ({
            let ways = near_model::ways_from(near_model::static_prices(), c, n, 0);
            let its = near_model::walked(ways, cur, n);
            &&& items::parse_ok(h, base + cur, its)
            &&& 16 * items::cost(
                h,
                base + cur,
                its,
                stream::static_litlen_lens(),
                stream::static_offset_lens(),
            ) == ways[cur].cost
        }),
    decreases n - cur,
{
    let p = near_model::static_prices();
    let sl = stream::static_litlen_lens();
    let so = stream::static_offset_lens();
    let ways = near_model::ways_from(p, c, n, 0);
    near_model::lemma_ways_len(p, c, n, 0);
    lemma_ways_at(p, c, n, 0, cur);
    if cur < n {
        let rest = near_model::ways_from(p, c, n, cur + 1);
        let e = near_optimal::rewound(c, (n - 1 - cur) as nat);
        let ms = near_optimal::last_matches(e);
        let lit = e.last().offset as int;
        let first = Way { cost: p.lit[lit] + rest[0].cost, len: 1, arg: lit };
        near_optimal::lemma_rewound(h, base, base + n, c, (n - 1 - cur) as nat);
        near_model::lemma_ways_len(p, c, n, cur + 1);
        lemma_over_ok(p, rest, lit, ms, 0, 3, first);
        let w = ways[cur];
        assert(w == near_model::best_way(p, rest, lit, ms));
        assert(lit == h[base + cur]);
        lemma_ways_at(p, c, n, cur + 1, w.len - 1);
        lemma_ways_at(p, c, n, 0, cur + w.len);
        lemma_walk_cost(h, base, c, n, cur + w.len);
        let it = if w.len == 1 {
            (1int, 0int)
        } else {
            (w.len, w.arg)
        };
        let a = seq![it];
        let more = near_model::walked(ways, cur + w.len, n);
        assert(near_model::walked(ways, cur, n) == a + more);
        assert(a.drop_last() =~= Seq::empty());
        assert(a.last() == it);
        if w.len > 1 {
            let k = choose|k: int|
                0 <= k < ms.len() && (#[trigger] ms[k]).1 == w.arg && w.len <= ms[k].0;
            assert(3 <= ms[k].0 <= 258);
            items::lemma_slots(w.len, w.arg);
            assert(items::is_match(h, base + cur, w.len, w.arg));
        }
        assert(items::item_ok(h, base + cur, it));
        reveal_with_fuel(items::parse_ok, 2);
        reveal_with_fuel(items::end_of, 2);
        reveal_with_fuel(items::cost, 2);
        assert(items::parse_ok(h, base + cur, a));
        assert(items::end_of(base + cur, a) == base + cur + w.len);
        items::lemma_parse_concat(h, base + cur, a, more, sl, so);
    } else {
        assert(near_model::walked(ways, cur, n) =~= Seq::empty());
    }
}

/// What the passes over a block end with is what the best of them gives.
pub proof fn lemma_passes(
    h: Seq<u8>,
    base: int,
    n: int,
    c: Seq<LzMatch>,
    min_gain: int,
    prices: Prices,
    saved: Prices,
    best: int,
    left: int,
)
    requires
        0 <= min_gain,
    ensures
        ({
            let e = near_model::passes(h, base, n, c, min_gain, prices, saved, best, left);
            &&& e.best <= best
            &&& (e.best == best && e.saved == saved) || near_model::items_cost(
                h,
                base,
                near_model::cheapest_items(e.saved, c, n),
            ) == e.best
        }),
    decreases left,
{
    let its = near_model::cheapest_items(prices, c, n);
    let cost = near_model::items_cost(h, base, its);
    if cost + min_gain <= best && left > 1 {
        let next = near_model::prices_after(h, base, its);
        lemma_passes(h, base, n, c, min_gain, next, prices, cost, left - 1);
    }
}

/// What is written of a short block with a full cache takes fewer bits than its bytes, if
/// the static codes are tried: in codes of its own or in the static ones.
proof fn lemma_chosen_light(
    h: Seq<u8>,
    base: int,
    n: int,
    c: Seq<LzMatch>,
    t: Tuning,
    prices: Prices,
)
    requires
        near_optimal::cache_ok(h, base, base + n, c),
        0 <= base,
        base + n <= h.len(),
        c.len() >= 1500000,
        5000 <= n <= 10000,
        n <= t.static_len,
        0 <= t.min_gain,
        t.min_return <= 1000,
    ensures
        ({
            let its = near_model::chosen(h, base, n, c, t, prices).its;
            ||| 3 + near_model::items_cost(h, base, its) <= 8 * n - 1000
            ||| 10 + items::cost(
                h,
                base,
                its,
                stream::static_litlen_lens(),
                stream::static_offset_lens(),
            ) <= 8 * n - 1000
        }),
{
    reveal(near_model::chosen);
    let e = near_model::passes(
        h,
        base,
        n,
        c,
        t.min_gain,
        prices,
        prices,
        0xffff_ffff,
        t.passes,
    );
    lemma_passes(h, base, n, c, t.min_gain, prices, prices, 0xffff_ffff, t.passes);
    lemma_ways_cheap(h, base, c, n, 0);
    lemma_entries(h, base, c, n, 0, n);
    near_optimal::lemma_rewound(h, base, base + n, c, n as nat);
    assert(near_optimal::rewound(c, n as nat).len() == 0);
    assert(entries_from(c, n, 0) >= 1500000);
    lemma_walk_cost(h, base, c, n, 0);
}

/// A block that ends where the cache is full has been written, with the static codes tried
/// on it.
pub proof fn lemma_tight_full(
    o0: OutputBitstream<'_>,
    o1: OutputBitstream<'_>,
    o2: OutputBitstream<'_>,
    h: Seq<u8>,
    start: int,
    s: Near,
    depth: int,
    t: Tuning,
    f: Fill,
    n: int,
    last: bool,
)
    requires
        0 <= start <= s.begin,
        5000 <= n <= 10000,
        n == f.spot.next - s.begin,
        s.begin + n <= h.len(),
        near_optimal::cache_ok(h, s.begin, s.begin + n, f.cache),
        f.cache.len() >= 1500000,
        n <= t.static_len,
        0 <= t.min_gain,
        t.min_return <= 1000,
        progress::tight(o0, o1, h, start, s.begin),
        ({
            let its = near_model::next_chosen(s, h, depth, t, f, None).its;
            &&& block::flushed_block(o1, o2, h, s.begin, n, its, last)
            &&& !o2.overflow ==> block::coded_as(o1.bits(), o2.bits(), h, s.begin, n, its, last)
        }),
    ensures
        progress::tight(o0, o2, h, start, s.begin + n),
{
    let its = near_model::next_chosen(s, h, depth, t, f, None).its;
    let lens = near_model::merged_lens(f.lens, f.recent);
    let o = block_split::merged(f.o);
    let prices = near_model::first_prices(
        h,
        s.begin,
        n,
        depth,
        s.begin == 0,
        lens,
        o.before,
        o.num_before,
        s.prices,
        s.prev,
        s.prev_num,
    );
    assert(near_optimal::rewound(f.cache, 0) == f.cache);
    assert(its == near_model::chosen(h, s.begin, n, f.cache, t, prices).its);
    lemma_chosen_light(h, s.begin, n, f.cache, t, prices);
    if !o2.overflow {
        block_laws::law_block_is_cheapest(o1.bits(), o2.bits(), h, s.begin, n, its, last);
    }
    progress::lemma_light_block(o0, o1, o2, h, start, s.begin, n);
}

} // verus!
