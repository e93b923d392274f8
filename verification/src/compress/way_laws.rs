//! The way that is taken through a block is the cheapest one.

use crate::compress::costs::Prices;
use crate::compress::items;
use crate::compress::near_model;
use crate::compress::near_model::Way;
use crate::compress::near_optimal;
use crate::compress::near_tight;
use crate::matchfinder::bt::LzMatch;
use vstd::prelude::*;

verus! {

/// What an item at position `at` costs.
pub open spec fn price(p: Prices, h: Seq<u8>, at: int, it: (int, int)) -> int {
    if it.1 == 0 {
        p.lit[h[at] as int]
    } else {
        p.len[it.0] + p.slot[items::offset_slot_of(it.1)]
    }
}

/// What items from position `at` on cost.
pub open spec fn total(p: Prices, h: Seq<u8>, at: int, its: Seq<(int, int)>) -> int
    decreases its.len(),
{
    if its.len() == 0 {
        0
    } else {
        price(p, h, at, its[0]) + total(p, h, at + its[0].0, its.skip(1))
    }
}

/// An item is a literal, or the match of its length with the nearest distance of those found.
pub open spec fn offered(ms: Seq<(int, int)>, it: (int, int)) -> bool {
    ||| it == (1int, 0int)
    ||| exists|k: int|
        #![trigger ms[k]]
        0 <= k < ms.len() && it.1 == ms[k].1 && 3 <= it.0 <= ms[k].0 && forall|j: int|
            0 <= j < k ==> (#[trigger] ms[j]).0 < it.0
}

/// Items that lead from position `i` to the end of a block of `n` bytes, each of them a literal
/// or a match that the cache holds.
pub open spec fn leads(c: Seq<LzMatch>, n: int, i: int, its: Seq<(int, int)>) -> bool
    decreases its.len(),
{
    if its.len() == 0 {
        i == n
    } else {
        &&& i < n
        &&& offered(
            near_optimal::last_matches(near_optimal::rewound(c, (n - 1 - i) as nat)),
            its[0],
        )
        &&& its[0].0 <= n - i
        &&& leads(c, n, i + its[0].0, its.skip(1))
    }
}

/// The way on is no dearer than one of the matches.
proof fn lemma_over_offered(
    p: Prices,
    rest: Seq<Way>,
    ms: Seq<(int, int)>,
    k: int,
    l: int,
    best: Way,
    t: int,
    x: int,
)
    requires
        0 <= k <= t < ms.len(),
        3 <= l <= x <= ms[t].0,
        x <= rest.len(),
        forall|j: int| 0 <= j < t ==> (#[trigger] ms[j]).0 < x,
    ensures
        near_model::over_matches(p, rest, ms, k, l, best).cost <= p.slot[items::offset_slot_of(
            ms[t].1,
        )] + p.len[x] + rest[x - 1].cost,
    decreases ms.len() - k, ms[k].0 + 1 - l,
{
    if l > ms[k].0 {
        lemma_over_offered(p, rest, ms, k + 1, l, best, t, x);
    } else {
        let cost = p.slot[items::offset_slot_of(ms[k].1)] + p.len[l] + rest[l - 1].cost;
        let b = if l <= rest.len() && cost < best.cost {
            Way { cost, len: l, arg: ms[k].1 }
        } else {
            best
        };
        if l == x && k == t {
            near_tight::lemma_over_best(p, rest, ms, k, l + 1, b);
        } else {
            if k < t {
                assert(ms[k].0 < x);
            }
            lemma_over_offered(p, rest, ms, k, l + 1, b, t, x);
        }
    }
}

/// No items that lead through the block cost less than the cheapest way.
pub proof fn law_no_cheaper_way(
    p: Prices,
    h: Seq<u8>,
    base: int,
    c: Seq<LzMatch>,
    n: int,
    i: int,
    its: Seq<(int, int)>,
)
    requires
        near_optimal::cache_ok(h, base, base + n, c),
        0 <= base,
        base + n <= h.len(),
        0 <= i <= n,
        leads(c, n, i, its),
    ensures
        near_model::ways_from(p, c, n, i)[0].cost <= total(p, h, base + i, its),
    decreases its.len(),
{
    if its.len() > 0 {
        let it = its[0];
        let rest = near_model::ways_from(p, c, n, i + 1);
        let e = near_optimal::rewound(c, (n - 1 - i) as nat);
        let ms = near_optimal::last_matches(e);
        let lit = e.last().offset as int;
        let first = Way { cost: p.lit[lit] + rest[0].cost, len: 1, arg: lit };
        near_optimal::lemma_rewound(h, base, base + n, c, (n - 1 - i) as nat);
        near_model::lemma_ways_len(p, c, n, i + 1);
        assert(near_model::ways_from(p, c, n, i)[0] == near_model::best_way(p, rest, lit, ms));
        assert(lit == h[base + i]);
        law_no_cheaper_way(p, h, base, c, n, i + it.0, its.skip(1));
        if it == (1int, 0int) {
            near_tight::lemma_over_best(p, rest, ms, 0, 3, first);
        } else {
            let k = choose|k: int|
                #![trigger ms[k]]
                0 <= k < ms.len() && it.1 == ms[k].1 && 3 <= it.0 <= ms[k].0 && forall|j: int|
                    0 <= j < k ==> (#[trigger] ms[j]).0 < it.0;
            assert(ms[k].1 >= 1);
            lemma_over_offered(p, rest, ms, 0, 3, first, k, it.0);
            near_tight::lemma_ways_at(p, c, n, i + 1, it.0 - 1);
        }
    }
}

/// The items of the cheapest way cost what the way costs.
pub proof fn law_way_costs_its_items(
    p: Prices,
    h: Seq<u8>,
    base: int,
    c: Seq<LzMatch>,
    n: int,
    cur: int,
)
    requires
        near_optimal::cache_ok(h, base, base + n, c),
        0 <= base,
        base + n <= h.len(),
        0 <= cur <= n,
    ensures
        ({
            let ways = near_model::ways_from(p, c, n, 0);
            total(p, h, base + cur, near_model::walked(ways, cur, n)) == ways[cur].cost
        }),
    decreases n - cur,
{
    let ways = near_model::ways_from(p, c, n, 0);
    near_model::lemma_ways_len(p, c, n, 0);
    near_tight::lemma_ways_at(p, c, n, 0, cur);
    if cur < n {
        let rest = near_model::ways_from(p, c, n, cur + 1);
        let e = near_optimal::rewound(c, (n - 1 - cur) as nat);
        let ms = near_optimal::last_matches(e);
        let lit = e.last().offset as int;
        let first = Way { cost: p.lit[lit] + rest[0].cost, len: 1, arg: lit };
        near_optimal::lemma_rewound(h, base, base + n, c, (n - 1 - cur) as nat);
        near_model::lemma_ways_len(p, c, n, cur + 1);
        near_tight::lemma_over_ok(p, rest, lit, ms, 0, 3, first);
        let w = ways[cur];
        assert(w == near_model::best_way(p, rest, lit, ms));
        assert(lit == h[base + cur]);
        near_tight::lemma_ways_at(p, c, n, cur + 1, w.len - 1);
        near_tight::lemma_ways_at(p, c, n, 0, cur + w.len);
        law_way_costs_its_items(p, h, base, c, n, cur + w.len);
        let its = near_model::walked(ways, cur, n);
        let more = near_model::walked(ways, cur + w.len, n);
        assert(its.skip(1) =~= more);
        if w.len > 1 {
            let k = choose|k: int|
                0 <= k < ms.len() && (#[trigger] ms[k]).1 == w.arg && w.len <= ms[k].0;
            assert(ms[k].1 >= 1);
        }
    } else {
        assert(near_model::walked(ways, cur, n) =~= Seq::empty());
    }
}

} // verus!
