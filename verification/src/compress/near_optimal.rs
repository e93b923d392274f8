//! Near-optimal parsing for DEFLATE compression.

use crate::compress::bitstream::OutputBitstream;
use crate::compress::block;
use crate::compress::block::{
    combine_lens, flush_block, make_huffman_codes, num_syms, symbol_cost, BlockOutput, DeflateCodes,
    DeflateFreqs,
};
use crate::compress::block_split;
use crate::compress::block_split::{BlockSplitStats, Observed};
use crate::compress::cost_model;
use crate::compress::costs;
use crate::compress::costs::{
    adjust_costs, choose_default_litlen_costs, set_costs_from_codes, set_default_costs, DeflateCosts,
};
use crate::compress::items;
use crate::compress::items::{get_length_slot, get_offset_slot};
use crate::compress::near_model;
use crate::compress::near_model::{Memory, Passed, Tuning, Way};
use crate::compress::precode::{pack_lens, BestPrecodeResult, PrecodeFlags};
use crate::compress::sequences;
use crate::compress::sequences::Sequence;
use crate::matchfinder::bt;
use crate::matchfinder::bt::{BtMatchfinder, LzMatch};
use vstd::prelude::*;

verus! {

/// The bits below this one of a node's item hold the length.
pub const OPTIMUM_OFFSET_SHIFT: u32 = 9;

/// The mask of the length in a node's item.
pub const OPTIMUM_LEN_MASK: u32 = 511;

/// A node in the minimum-cost path graph.
#[derive(Clone, Copy)]
pub struct OptimumNode {
    /// The cost of the cheapest path from this node to the end of the block.
    pub cost_to_end: u32,
    /// The first item on that path: the length, and above it the offset or, for
    /// a literal, the byte.
    pub item: u32,
}

impl OptimumNode {
    /// The length of the node's item.
    pub open spec fn len(&self) -> int {
        self.item as int % 512
    }

    /// The offset of the node's match, or the byte of its literal.
    pub open spec fn arg(&self) -> int {
        self.item as int / 512
    }

    /// The way that the node stands for.
    pub open spec fn way(&self) -> Way {
        Way { cost: self.cost_to_end as int, len: self.len(), arg: self.arg() }
    }

    /// The item of the node.
    pub open spec fn it(&self) -> (int, int) {
        if self.len() == 1 {
            (1, 0)
        } else {
            (self.len(), self.arg())
        }
    }
}

/// The items on the path from node `cur` to node `end`.
pub open spec fn path_items(nodes: Seq<OptimumNode>, cur: int, end: int) -> Seq<(int, int)>
    decreases end - cur,
{
    if cur >= end || nodes[cur].len() <= 0 || cur + nodes[cur].len() > end {
        Seq::empty()
    } else {
        seq![nodes[cur].it()] + path_items(nodes, cur + nodes[cur].len(), end)
    }
}

/// The literals among the nodes of a block hold the bytes of the data.
pub open spec fn literals_ok(nodes: Seq<OptimumNode>, h: Seq<u8>, base: int, n: int) -> bool {
    forall|i: int|
        0 <= i < n && (#[trigger] nodes[i]).len() == 1 ==> nodes[i].arg() == h[base + i]
}

/// A cache of matches without what belongs to the last position: the matches
/// there and an entry that holds their number.
pub open spec fn peeled(c: Seq<LzMatch>) -> Seq<LzMatch> {
    c.take(c.len() - 1 - c.last().length)
}

/// A cache of matches without what belongs to the last `m` positions.
pub open spec fn rewound(c: Seq<LzMatch>, m: nat) -> Seq<LzMatch>
    decreases m,
{
    if m == 0 {
        c
    } else {
        rewound(peeled(c), (m - 1) as nat)
    }
}

/// The matches at the last position of a cache.
pub open spec fn last_matches(c: Seq<LzMatch>) -> Seq<(int, int)> {
    bt::pairs(c.subrange(c.len() - 1 - c.last().length, c.len() - 1))
}

/// The cache holds, for each position from `base` to `cur`, the matches there and
/// the byte.
pub open spec fn cache_ok(h: Seq<u8>, base: int, cur: int, c: Seq<LzMatch>) -> bool
    decreases cur - base,
{
    if cur <= base {
        c.len() == 0
    } else {
        &&& c.len() > c.last().length
        &&& c.last().offset == h[cur - 1]
        &&& bt::matches_ok(h, cur - 1, 258, last_matches(c))
        &&& cache_ok(h, base, cur - 1, peeled(c))
    }
}

/// Peeling once more.
pub proof fn lemma_rewound_step(c: Seq<LzMatch>, m: nat)
    ensures
        rewound(c, m + 1) == peeled(rewound(c, m)),
    decreases m,
{
    reveal_with_fuel(rewound, 2);
    if m > 0 {
        lemma_rewound_step(peeled(c), (m - 1) as nat);
    }
}

/// A cache can be rewound, and what is taken away is a cache too.
pub proof fn lemma_rewound(h: Seq<u8>, base: int, cur: int, c: Seq<LzMatch>, m: nat)
    requires
        cache_ok(h, base, cur, c),
        m <= cur - base,
    ensures
        cache_ok(h, base, cur - m, rewound(c, m)),
        rewound(c, m).len() <= c.len(),
        rewound(c, m) == c.take(rewound(c, m).len() as int),
        cache_ok(h, cur - m, cur, c.skip(rewound(c, m).len() as int)),
    decreases m,
{
    let j = rewound(c, m).len() as int;
    if m == 0 {
        assert(c.take(j) =~= c);
        assert(c.skip(j).len() == 0);
    } else {
        let d = peeled(c);
        lemma_rewound(h, base, cur - 1, d, (m - 1) as nat);
        assert(d.take(j) =~= c.take(j));
        let s = c.skip(j);
        assert(s.last() == c.last());
        assert(peeled(s) =~= d.skip(j));
        assert(s.subrange(s.len() - 1 - s.last().length, s.len() - 1) =~= c.subrange(
            c.len() - 1 - c.last().length,
            c.len() - 1,
        ));
    }
}

/// A cache does not hold many entries for each position.
pub proof fn lemma_cache_len(h: Seq<u8>, base: int, cur: int, c: Seq<LzMatch>)
    requires
        cache_ok(h, base, cur, c),
        base <= cur,
    ensures
        c.len() <= 257 * (cur - base),
    decreases cur - base,
{
    if cur > base {
        lemma_cache_len(h, base, cur - 1, peeled(c));
        bt::lemma_matches_count(h, cur - 1, 258, last_matches(c));
    }
}

/// At each of the last `n` positions of a cache there are `d` matches at most.
pub open spec fn sparse(c: Seq<LzMatch>, n: int, d: int) -> bool
    decreases n,
{
    n <= 0 || (c.last().length <= d && sparse(peeled(c), n - 1, d))
}

/// Such a cache holds few entries.
pub proof fn lemma_sparse_len(
    h: Seq<u8>,
    base: int,
    cur: int,
    c: Seq<LzMatch>,
    d: int,
)
    requires
        cache_ok(h, base, cur, c),
        sparse(c, cur - base, d),
        base <= cur,
        0 <= d,
    ensures
        c.len() <= (d + 1) * (cur - base),
    decreases cur - base,
{
    if cur > base {
        lemma_sparse_len(h, base, cur - 1, peeled(c), d);
        assert((d + 1) * (cur - base) == (d + 1) * (cur - 1 - base) + d + 1) by (nonlinear_arith);
    }
}

/// Both parts of such a cache are so.
pub proof fn lemma_sparse_rewound(
    h: Seq<u8>,
    base: int,
    cur: int,
    c: Seq<LzMatch>,
    m: nat,
    d: int,
)
    requires
        cache_ok(h, base, cur, c),
        sparse(c, cur - base, d),
        m <= cur - base,
    ensures
        sparse(rewound(c, m), cur - base - m, d),
        sparse(c.skip(rewound(c, m).len() as int), m as int, d),
    decreases m,
{
    if m > 0 {
        let j = rewound(c, m).len() as int;
        let p = peeled(c);
        lemma_sparse_rewound(h, base, cur - 1, p, (m - 1) as nat, d);
        lemma_rewound(h, base, cur - 1, p, (m - 1) as nat);
        let s = c.skip(j);
        assert(s.last() == c.last());
        assert(peeled(s) =~= p.skip(j));
    }
}

/// One more position with few matches.
pub proof fn lemma_sparse_push(c0: Seq<LzMatch>, c1: Seq<LzMatch>, n: int, d: int)
    requires
        sparse(c0, n, d),
        0 <= n,
        c0.len() < c1.len(),
        c1.take(c0.len() as int) == c0,
        c1.last().length == c1.len() - 1 - c0.len(),
        c1.last().length <= d,
    ensures
        sparse(c1, n + 1, d),
{
    assert(peeled(c1) =~= c0);
}

/// What belongs to one more position: matches, then an entry with their number and
/// the byte.
pub proof fn lemma_cache_push(h: Seq<u8>, base: int, cur: int, c0: Seq<LzMatch>, c1: Seq<LzMatch>)
    requires
        cache_ok(h, base, cur, c0),
        base <= cur,
        c0.len() < c1.len(),
        c1.take(c0.len() as int) == c0,
        c1.last().length == c1.len() - 1 - c0.len(),
        c1.last().offset == h[cur],
        bt::matches_ok(h, cur, 258, bt::pairs(c1.subrange(c0.len() as int, c1.len() - 1))),
    ensures
        cache_ok(h, base, cur + 1, c1),
{
    assert(peeled(c1) =~= c0);
}

/// The node's item may stand at its position, and ends in the block.
pub open spec fn node_ok(h: Seq<u8>, base: int, n: int, nodes: Seq<OptimumNode>, i: int) -> bool {
    &&& nodes[i].len() >= 1
    &&& i + nodes[i].len() <= n
    &&& nodes[i].len() == 1 ==> nodes[i].arg() == h[base + i]
    &&& nodes[i].len() != 1 ==> nodes[i].arg() > 0
    &&& items::item_ok(h, base + i, nodes[i].it())
}

/// Valid items make a valid path.
pub proof fn lemma_path(h: Seq<u8>, base: int, n: int, nodes: Seq<OptimumNode>, cur: int)
    requires
        0 <= cur <= n,
        forall|i: int| 0 <= i < n ==> #[trigger] node_ok(h, base, n, nodes, i),
    ensures
        items::parse_ok(h, base + cur, path_items(nodes, cur, n)),
        items::end_of(base + cur, path_items(nodes, cur, n)) == base + n,
    decreases n - cur,
{
    if cur < n {
        assert(node_ok(h, base, n, nodes, cur));
        let q = cur + nodes[cur].len();
        lemma_path(h, base, n, nodes, q);
        items::lemma_parse_cons(h, base + cur, nodes[cur].it(), path_items(nodes, q, n));
    }
}

/// The cost of a match.
pub open spec fn match_cost(costs: DeflateCosts, len: int, dist: int) -> int {
    costs.length@[len] + costs.offset_slot@[items::offset_slot_of(dist)]
}

/// Node `i` holds the cheapest way on from its position: that of its item, and no
/// literal and no match is cheaper. Of the matches `ms` each one counts for the
/// lengths that no shorter one has.
pub open spec fn cheapest(
    costs: DeflateCosts,
    nodes: Seq<OptimumNode>,
    i: int,
    n: int,
    lit: int,
    ms: Seq<(int, int)>,
) -> bool {
    let c = nodes[i].cost_to_end as int;
    &&& c == nodes[i + nodes[i].len()].cost_to_end + if nodes[i].len() == 1 {
        costs.literal@[lit] as int
    } else {
        match_cost(costs, nodes[i].len(), nodes[i].arg())
    }
    &&& c <= costs.literal@[lit] + nodes[i + 1].cost_to_end
    &&& forall|k: int, len: int|
        #![trigger ms[k], nodes[i + len]]
        0 <= k < ms.len() && 3 <= len <= ms[k].0 && (k > 0 ==> ms[k - 1].0 < len) && i + len <= n
            ==> c <= match_cost(costs, len, ms[k].1) + nodes[i + len].cost_to_end
}

/// Every node of a block holds the cheapest way to the end of the block.
pub open spec fn optimal(
    costs: DeflateCosts,
    nodes: Seq<OptimumNode>,
    n: int,
    c: Seq<LzMatch>,
    from: int,
) -> bool {
    &&& nodes[n].cost_to_end == 0
    &&& forall|i: int|
        #![trigger nodes[i]]
        from <= i < n ==> {
            let e = rewound(c, (n - 1 - i) as nat);
            cheapest(costs, nodes, i, n, e.last().offset as int, last_matches(e))
        }
}

/// Choose the cheapest way on from a position.
///
/// The matches there are in the cache from `start` to `idx`; the entry at `idx`
/// holds the byte.
fn best_node(
    nodes: &Vec<OptimumNode>,
    costs: &DeflateCosts,
    cache: &Vec<LzMatch>,
    start: usize,
    idx: usize,
    cur: usize,
    n: usize,
    h: Ghost<Seq<u8>>,
    base: Ghost<int>,
    rest: Ghost<Seq<Way>>,
) -> (r: OptimumNode)
    requires
        rest@.len() == n - cur,
        forall|i: int|
            cur < i <= n ==> (#[trigger] nodes@[i]).cost_to_end == rest@[i - cur - 1].cost,
        costs.wf(),
        start <= idx < cache@.len(),
        cur < n < nodes@.len(),
        n <= 0x40_0000,
        0 <= base@,
        base@ + n <= h@.len(),
        cache@[idx as int].offset == h@[base@ + cur],
        bt::matches_ok(
            h@,
            base@ + cur,
            258,
            bt::pairs(cache@.subrange(start as int, idx as int)),
        ),
        forall|i: int|
            cur < i <= n ==> (#[trigger] nodes@[i]).cost_to_end <= 600 * (n - i),
    ensures
        r.cost_to_end <= 600 * (n - cur),
        r.way() == near_model::best_way(
            costs@,
            rest@,
            cache@[idx as int].offset as int,
            bt::pairs(cache@.subrange(start as int, idx as int)),
        ),
        ({
            let t = nodes@.update(cur as int, r);
            &&& node_ok(h@, base@, n as int, t, cur as int)
            &&& cheapest(
                *costs,
                t,
                cur as int,
                n as int,
                cache@[idx as int].offset as int,
                bt::pairs(cache@.subrange(start as int, idx as int)),
            )
        }),
{
    let ghost ms = bt::pairs(cache@.subrange(start as int, idx as int));
    let ghost p = base@ + cur;
    let lit: u32 = cache[idx].offset as u32;
    assert(costs.literal@[lit as int] <= 600);
    assert(nodes@[cur + 1].cost_to_end <= 600 * (n - cur - 1));
    let mut best: u32 = costs.literal[lit as usize] + nodes[cur + 1].cost_to_end;
    let mut item: u32 = lit * 512 + 1;
    let ghost lit_cost = best as int;
    let ghost goal = near_model::best_way(costs@, rest@, lit as int, ms);
    proof {
        assert(nodes@[cur + 1].cost_to_end == rest@[0].cost);
        assert(item as int % 512 == 1);
        assert(item as int / 512 == lit);
    }
    let mut j: usize = start;
    let mut len: u32 = 3;
    while j < idx
        invariant
            start <= j <= idx < cache@.len(),
            cur < n < nodes@.len(),
            n <= 0x40_0000,
            0 <= base@,
            p == base@ + cur,
            base@ + n <= h@.len(),
            costs.wf(),
            ms == bt::pairs(cache@.subrange(start as int, idx as int)),
            bt::matches_ok(h@, p, 258, ms),
            lit == h@[p],
            rest@.len() == n - cur,
            forall|i: int|
                cur < i <= n ==> (#[trigger] nodes@[i]).cost_to_end == rest@[i - cur - 1].cost,
            goal == near_model::over_matches(
                costs@,
                rest@,
                ms,
                j - start,
                len as int,
                Way { cost: best as int, len: item as int % 512, arg: item as int / 512 },
            ),
            lit_cost == costs.literal@[lit as int] + nodes@[cur + 1].cost_to_end,
            forall|i: int| cur < i <= n ==> (#[trigger] nodes@[i]).cost_to_end <= 600 * (n - i),
            3 <= len <= 259,
            len == if j == start {
                3
            } else {
                ms[j - start - 1].0 + 1
            },
            best <= lit_cost,
            best <= 600 * (n - cur),
            item_good(*costs, h@, base@, nodes@, cur as int, n as int, best as int, item, lit as int),
            forall|k: int, l: int|
                #![trigger ms[k], nodes@[cur + l]]
                0 <= k < j - start && 3 <= l <= ms[k].0 && (k > 0 ==> ms[k - 1].0 < l) && cur + l <= n
                    ==> best <= match_cost(*costs, l, ms[k].1) + nodes@[cur + l].cost_to_end,
        decreases idx - j,
    {
        let offset: u32 = cache[j].offset as u32;
        let length: u32 = cache[j].length as u32;
        let ghost k0 = j - start;
        assert(ms[k0] == (length as int, offset as int)) by {
            assert(cache@.subrange(start as int, idx as int)[k0] == cache@[j as int]);
        }
        proof {
            if k0 > 0 {
                assert(ms[k0 - 1].0 < ms[k0].0);
            }
        }
        let slot: usize = get_offset_slot(offset) as usize;
        assert(costs.offset_slot@[slot as int] <= 600);
        let offset_cost: u32 = costs.offset_slot[slot];
        let ghost first = len as int;
        while len <= length
            invariant
                start <= j < idx < cache@.len(),
                k0 == j - start,
                cur < n < nodes@.len(),
                n <= 0x40_0000,
                0 <= base@,
                p == base@ + cur,
                base@ + n <= h@.len(),
                costs.wf(),
                bt::matches_ok(h@, p, 258, ms),
                0 <= k0 < ms.len(),
                ms[k0] == (length as int, offset as int),
                lit == h@[p],
                rest@.len() == n - cur,
                forall|i: int|
                    cur < i <= n ==> (#[trigger] nodes@[i]).cost_to_end == rest@[i - cur - 1].cost,
                goal == near_model::over_matches(
                    costs@,
                    rest@,
                    ms,
                    k0,
                    len as int,
                    Way { cost: best as int, len: item as int % 512, arg: item as int / 512 },
                ),
                slot < 30,
                lit_cost == costs.literal@[lit as int] + nodes@[cur + 1].cost_to_end,
                slot == items::offset_slot_of(offset as int),
                offset_cost == costs.offset_slot@[slot as int],
                offset_cost <= 600,
                forall|i: int| cur < i <= n ==> (#[trigger] nodes@[i]).cost_to_end <= 600 * (n - i),
                3 <= first <= len <= length + 1,
                length <= 258,
                first == if k0 == 0 {
                    3
                } else {
                    ms[k0 - 1].0 + 1
                },
                best <= lit_cost,
                best <= 600 * (n - cur),
                item_good(
                    *costs,
                    h@,
                    base@,
                    nodes@,
                    cur as int,
                    n as int,
                    best as int,
                    item,
                    lit as int,
                ),
                forall|k: int, l: int|
                    #![trigger ms[k], nodes@[cur + l]]
                    0 <= k < k0 && 3 <= l <= ms[k].0 && (k > 0 ==> ms[k - 1].0 < l) && cur + l <= n
                        ==> best <= match_cost(*costs, l, ms[k].1) + nodes@[cur + l].cost_to_end,
                forall|l: int|
                    #![trigger nodes@[cur + l]]
                    first <= l < len && cur + l <= n ==> best <= match_cost(*costs, l, offset as int)
                        + nodes@[cur + l].cost_to_end,
            decreases length + 1 - len,
        {
            if len as usize <= n - cur {
                let next: usize = cur + len as usize;
                assert(nodes@[next as int].cost_to_end <= 600 * (n - next));
                assert(costs.length@[len as int] <= 600);
                let cost: u32 = offset_cost + costs.length[len as usize] + nodes[next].cost_to_end;
                assert(nodes@[next as int].cost_to_end == rest@[len - 1].cost);
                assert(costs@.slot[slot as int] == offset_cost);
                assert(costs@.len[len as int] == costs.length@[len as int]);
                if cost < best {
                    best = cost;
                    item = offset * 512 + len;
                    proof {
                        let l = len as int;
                        let d = offset as int;
                        assert(item as int % 512 == l);
                        assert(item as int / 512 == d);
                        assert(items::is_match(h@, p, ms[k0].0, d));
                        assert(items::is_match(h@, p, l, d));
                    }
                }
            }
            len = len + 1;
        }
        j = j + 1;
    }
    let r: OptimumNode = OptimumNode { cost_to_end: best, item };
    proof {
        let t = nodes@.update(cur as int, r);
        assert forall|i: int| cur < i <= n implies t[i] == nodes@[i] by {}
        assert forall|k: int, l: int|
            #![trigger ms[k], t[cur + l]]
            0 <= k < ms.len() && 3 <= l <= ms[k].0 && (k > 0 ==> ms[k - 1].0 < l) && cur + l <= n
            implies best <= match_cost(*costs, l, ms[k].1) + t[cur + l].cost_to_end by {
            assert(nodes@[cur + l] == t[cur + l]);
        }
    }
    r
}

/// The item may stand at its position, and has its cost.
spec fn item_good(
    costs: DeflateCosts,
    h: Seq<u8>,
    base: int,
    nodes: Seq<OptimumNode>,
    cur: int,
    n: int,
    best: int,
    item: u32,
    lit: int,
) -> bool {
    let len = item as int % 512;
    let arg = item as int / 512;
    &&& len >= 1
    &&& cur + len <= n
    &&& len == 1 ==> arg == lit
    &&& len != 1 ==> arg > 0 && items::item_ok(h, base + cur, (len, arg))
    &&& best == nodes[cur + len].cost_to_end + if len == 1 {
        costs.literal@[lit] as int
    } else {
        match_cost(costs, len, arg)
    }
}

/// The nodes hold a path over the block, and the counters and the codes are those
/// of the path.
pub open spec fn path_ready(
    h: Seq<u8>,
    base: int,
    n: int,
    nodes: Seq<OptimumNode>,
    freqs: DeflateFreqs,
    codes: DeflateCodes,
) -> bool {
    let its = path_items(nodes, 0, n);
    &&& n < nodes.len()
    &&& forall|i: int| 0 <= i < n ==> #[trigger] node_ok(h, base, n, nodes, i)
    &&& freqs.counts(h, base, its, 1)
    &&& codes_fit(freqs, codes)
}

/// The codes are Huffman codes for the counters; they have a codeword for every symbol that
/// occurs.
pub open spec fn codes_fit(freqs: DeflateFreqs, codes: DeflateCodes) -> bool {
    &&& codes.wf()
    &&& block::built(freqs, codes)
    &&& forall|s: int|
        0 <= s < 288 && freqs.litlen@[s] > 0 ==> #[trigger] codes.lens_litlen@[s] > 0
    &&& forall|s: int|
        0 <= s < 32 && freqs.offset@[s] > 0 ==> #[trigger] codes.lens_offset@[s] > 0
}

/// No counter is larger than the number of symbols.
proof fn lemma_counts_small(
    freqs: DeflateFreqs,
    h: Seq<u8>,
    base: int,
    its: Seq<(int, int)>,
    n: int,
    eob: int,
)
    requires
        freqs.counts(h, base, its, eob),
        items::parse_ok(h, base, its),
        0 <= base <= h.len(),
        items::end_of(base, its) == base + n,
        0 <= eob <= 1,
    ensures
        forall|s: int| 0 <= s < 288 ==> #[trigger] freqs.litlen@[s] <= n + 1,
        forall|s: int| 0 <= s < 32 ==> #[trigger] freqs.offset@[s] <= n,
{
    items::lemma_parse_len(h, base, its);
    assert forall|s: int| 0 <= s < 288 implies #[trigger] freqs.litlen@[s] <= n + 1 by {
        assert(items::litlen_count(h, base, its, s) <= its.len());
    }
    assert forall|s: int| 0 <= s < 32 implies #[trigger] freqs.offset@[s] <= n by {
        assert(items::offset_count(its, s) <= its.len());
    }
}

/// What the counters and the codes of items say.
pub proof fn lemma_items_cost(
    freqs: DeflateFreqs,
    codes: DeflateCodes,
    h: Seq<u8>,
    base: int,
    its: Seq<(int, int)>,
)
    requires
        freqs.counts(h, base, its, 1),
        codes_fit(freqs, codes),
    ensures
        codes.lens_litlen@ == cost_model::code_for(near_model::symbols_of(h, base, its), 14),
        codes.lens_offset@ == cost_model::code_for(near_model::offsets_of(its), 15),
        near_model::items_cost(h, base, its) == cost_model::true_cost(
            freqs.litlen@,
            freqs.offset@,
            codes.lens_litlen@,
            codes.lens_offset@,
        ),
{
    assert(freqs.litlen@ =~= near_model::symbols_of(h, base, its)) by {
        assert forall|s: int| 0 <= s < 288 implies #[trigger] freqs.litlen@[s]
            == near_model::symbols_of(h, base, its)[s] by {}
    }
    assert(freqs.offset@ =~= near_model::offsets_of(its)) by {
        assert forall|s: int| 0 <= s < 32 implies #[trigger] freqs.offset@[s]
            == near_model::offsets_of(its)[s] by {}
    }
    reveal(block::built);
    cost_model::lemma_code_for(freqs.litlen@, 14, codes.lens_litlen@);
    cost_model::lemma_code_for(freqs.offset@, 15, codes.lens_offset@);
}

/// Walk the path and tally symbol frequencies, with one end-of-block symbol.
fn tally_item_list(
    nodes: &Vec<OptimumNode>,
    n: usize,
    freqs: &mut DeflateFreqs,
    h: Ghost<Seq<u8>>,
    base: Ghost<int>,
)
    requires
        n < nodes@.len(),
        n < 0x3f_ffff,
        0 <= base@,
        base@ + n <= h@.len(),
        forall|i: int| 0 <= i < n ==> #[trigger] node_ok(h@, base@, n as int, nodes@, i),
    ensures
        final(freqs).counts(h@, base@, path_items(nodes@, 0, n as int), 1),
{
    let ghost its = path_items(nodes@, 0, n as int);
    let ghost mut k: int = 0;
    freqs.reset();
    let mut cur: usize = 0;
    proof {
        lemma_path(h@, base@, n as int, nodes@, 0);
        items::lemma_parse_len(h@, base@, its);
        assert(its.take(0) =~= Seq::empty());
        assert(its.skip(0) =~= its);
    }
    while cur < n
        invariant
            cur <= n < nodes@.len(),
            n < 0x3f_ffff,
            0 <= base@,
            base@ + n <= h@.len(),
            forall|i: int| 0 <= i < n ==> #[trigger] node_ok(h@, base@, n as int, nodes@, i),
            0 <= k <= its.len() <= n,
            its.skip(k) == path_items(nodes@, cur as int, n as int),
            base@ + cur == items::end_of(base@, its.take(k)),
            freqs.counts(h@, base@, its.take(k), 0),
            forall|s: int| 0 <= s < 288 ==> #[trigger] freqs.litlen@[s] <= k,
            forall|s: int| 0 <= s < 32 ==> #[trigger] freqs.offset@[s] <= k,
        decreases n - cur,
    {
        let length: u32 = nodes[cur].item % 512;
        let offset: u32 = nodes[cur].item / 512;
        let ghost node = nodes@[cur as int];
        let ghost f0 = *freqs;
        proof {
            assert(node_ok(h@, base@, n as int, nodes@, cur as int));
            assert(its.skip(k).len() > 0);
            assert(its.skip(k)[0] == node.it());
            assert(its[k] == node.it());
            assert(its.skip(k + 1) =~= its.skip(k).skip(1));
            assert(its.skip(k).skip(1) =~= path_items(nodes@, cur + node.len(), n as int));
            items::lemma_counts_step(h@, base@, its, k);
            items::lemma_slots(node.len(), node.arg());
        }
        if length == 1 {
            assert(freqs.litlen@[offset as int] <= k);
            freqs.litlen[offset as usize] = freqs.litlen[offset as usize] + 1;
        } else {
            let slot: usize = 257 + get_length_slot(length) as usize;
            let oslot: usize = get_offset_slot(offset) as usize;
            assert(freqs.litlen@[slot as int] <= k);
            assert(freqs.offset@[oslot as int] <= k);
            freqs.litlen[slot] = freqs.litlen[slot] + 1;
            freqs.offset[oslot] = freqs.offset[oslot] + 1;
        }
        cur = cur + length as usize;
        proof {
            assert forall|s: int| 0 <= s < 288 implies #[trigger] freqs.litlen@[s]
                == items::litlen_count(h@, base@, its.take(k + 1), s) + if s == 256 {
                0int
            } else {
                0
            } by {
                assert(f0.litlen@[s] == items::litlen_count(h@, base@, its.take(k), s) + if s
                    == 256 {
                    0int
                } else {
                    0
                });
            }
            assert forall|s: int| 0 <= s < 32 implies #[trigger] freqs.offset@[s]
                == items::offset_count(its.take(k + 1), s) by {
                assert(f0.offset@[s] == items::offset_count(its.take(k), s));
            }
            assert forall|s: int| 0 <= s < 288 implies #[trigger] freqs.litlen@[s] <= k + 1 by {
                assert(f0.litlen@[s] <= k);
            }
            assert forall|s: int| 0 <= s < 32 implies #[trigger] freqs.offset@[s] <= k + 1 by {
                assert(f0.offset@[s] <= k);
            }
            k = k + 1;
        }
    }
    let ghost f1 = *freqs;
    proof {
        assert(its.skip(k).len() == 0);
        assert(its.take(k) =~= its);
        assert(freqs.litlen@[256] <= k);
    }
    freqs.litlen[256] = freqs.litlen[256] + 1;
    proof {
        assert forall|s: int| 0 <= s < 288 implies #[trigger] freqs.litlen@[s]
            == items::litlen_count(h@, base@, its, s) + if s == 256 {
            1int
        } else {
            0
        } by {
            assert(f1.litlen@[s] == items::litlen_count(h@, base@, its, s) + if s == 256 {
                0int
            } else {
                0
            });
        }
        assert forall|s: int| 0 <= s < 32 implies #[trigger] freqs.offset@[s]
            == items::offset_count(its, s) by {
            assert(f1.offset@[s] == items::offset_count(its, s));
        }
    }
}

/// The node is the way from its position; at the end only its cost counts.
pub open spec fn follows_at(
    nodes: Seq<OptimumNode>,
    ways: Seq<Way>,
    from: int,
    n: int,
    i: int,
) -> bool {
    &&& nodes[i].cost_to_end == ways[i - from].cost
    &&& i < n ==> nodes[i].way() == ways[i - from]
}

/// The nodes from `from` on are the ways from their positions.
pub open spec fn follows(nodes: Seq<OptimumNode>, ways: Seq<Way>, from: int, n: int) -> bool {
    forall|i: int| from <= i <= n ==> #[trigger] follows_at(nodes, ways, from, n, i)
}

/// The path of the nodes is that of the ways.
proof fn lemma_follows(
    nodes: Seq<OptimumNode>,
    ways: Seq<Way>,
    h: Seq<u8>,
    base: int,
    cur: int,
    n: int,
)
    requires
        0 <= cur <= n,
        follows(nodes, ways, 0, n),
        forall|i: int| 0 <= i < n ==> #[trigger] node_ok(h, base, n, nodes, i),
    ensures
        path_items(nodes, cur, n) == near_model::walked(ways, cur, n),
    decreases n - cur,
{
    if cur < n {
        assert(follows_at(nodes, ways, 0, n, cur));
        assert(node_ok(h, base, n, nodes, cur));
        lemma_follows(nodes, ways, h, base, cur + nodes[cur].len(), n);
    }
}

/// Find the minimum-cost literal/match path through the block, from its end to its
/// beginning. Also sets freqs and codes from the path.
#[verifier::spinoff_prover]
#[verifier::rlimit(60)]
pub fn find_min_cost_path(
    nodes: &mut Vec<OptimumNode>,
    costs: &DeflateCosts,
    n: usize,
    cache: &Vec<LzMatch>,
    cache_end: usize,
    freqs: &mut DeflateFreqs,
    codes: &mut DeflateCodes,
    h: Ghost<Seq<u8>>,
    base: Ghost<int>,
)
    requires
        costs.wf(),
        n < old(nodes)@.len(),
        n < 0x3f_ffff,
        0 <= base@,
        base@ + n <= h@.len(),
        cache_end <= cache@.len(),
        cache_ok(h@, base@, base@ + n, cache@.take(cache_end as int)),
    ensures
        final(nodes)@.len() == old(nodes)@.len(),
        path_ready(h@, base@, n as int, final(nodes)@, *final(freqs), *final(codes)),
        optimal(*costs, final(nodes)@, n as int, cache@.take(cache_end as int), 0),
        final(nodes)@[0].cost_to_end <= 600 * n,
        ({
            let c = cache@.take(cache_end as int);
            &&& path_items(final(nodes)@, 0, n as int) == near_model::cheapest_items(
                costs@,
                c,
                n as int,
            )
            &&& final(nodes)@[0].cost_to_end == near_model::ways_from(costs@, c, n as int, 0)[0].cost
        }),
{
    let ghost c = cache@.take(cache_end as int);
    let mut end: OptimumNode = nodes[n];
    end.cost_to_end = 0;
    nodes.set(n, end);
    let mut idx: usize = cache_end;
    let mut cur: usize = n;
    assert(c.take(idx as int) =~= c);
    while cur > 0
        invariant
            cur <= n < nodes@.len(),
            nodes@.len() == old(nodes)@.len(),
            n < 0x3f_ffff,
            costs.wf(),
            0 <= base@,
            base@ + n <= h@.len(),
            cache_end <= cache@.len(),
            c == cache@.take(cache_end as int),
            idx <= cache_end,
            c.take(idx as int) == rewound(c, (n - cur) as nat),
            cache_ok(h@, base@, base@ + cur, c.take(idx as int)),
            forall|i: int| cur <= i < n ==> #[trigger] node_ok(h@, base@, n as int, nodes@, i),
            forall|i: int| cur <= i <= n ==> (#[trigger] nodes@[i]).cost_to_end <= 600 * (n - i),
            optimal(*costs, nodes@, n as int, c, cur as int),
            follows(nodes@, near_model::ways_from(costs@, c, n as int, cur as int), cur as int, n as int),
        decreases cur,
    {
        let ghost rest = near_model::ways_from(costs@, c, n as int, cur as int);
        proof {
            near_model::lemma_ways_len(costs@, c, n as int, cur as int);
        }
        let ghost e = c.take(idx as int);
        let ghost nodes0 = nodes@;
        cur = cur - 1;
        idx = idx - 1;
        let num: usize = cache[idx].length as usize;
        let start: usize = idx - num;
        proof {
            assert(e.last() == cache@[idx as int]);
            assert(e.subrange(e.len() - 1 - e.last().length, e.len() - 1) =~= cache@.subrange(
                start as int,
                idx as int,
            ));
            lemma_rewound_step(c, (n - cur - 1) as nat);
            assert(peeled(e) =~= c.take(start as int));
        }
        proof {
            assert forall|i: int| cur < i <= n implies (#[trigger] nodes@[i]).cost_to_end == rest[i
                - cur - 1].cost by {
                assert(follows_at(nodes@, rest, cur + 1, n as int, i));
            }
        }
        let node: OptimumNode = best_node(
            nodes,
            costs,
            cache,
            start,
            idx,
            cur,
            n,
            h,
            base,
            Ghost(rest),
        );
        nodes.set(cur, node);
        idx = start;
        proof {
            let ways = near_model::ways_from(costs@, c, n as int, cur as int);
            assert(ways =~= seq![ways[0]] + rest);
            assert forall|i: int| cur <= i <= n implies follows_at(nodes@, ways, cur as int, n as int, i) by {
                if i > cur {
                    assert(follows_at(nodes0, rest, cur + 1, n as int, i));
                }
            }
            assert forall|i: int| cur <= i < n implies #[trigger] node_ok(
                h@,
                base@,
                n as int,
                nodes@,
                i,
            ) by {
                if i > cur {
                    assert(node_ok(h@, base@, n as int, nodes0, i));
                    assert(nodes@[i] == nodes0[i]);
                }
            }
            assert forall|i: int|
                #![trigger nodes@[i]]
                cur <= i < n implies ({
                let e = rewound(c, (n - 1 - i) as nat);
                cheapest(*costs, nodes@, i, n as int, e.last().offset as int, last_matches(e))
            }) by {
                if i > cur {
                    let e = rewound(c, (n - 1 - i) as nat);
                    assert(nodes0[i] == nodes@[i]);
                    assert(cheapest(
                        *costs,
                        nodes0,
                        i,
                        n as int,
                        e.last().offset as int,
                        last_matches(e),
                    ));
                    assert(node_ok(h@, base@, n as int, nodes0, i));
                    lemma_cheapest_same(
                        *costs,
                        nodes0,
                        nodes@,
                        i,
                        n as int,
                        e.last().offset as int,
                        last_matches(e),
                    );
                }
            }
        }
    }
    proof {
        near_model::lemma_ways_len(costs@, c, n as int, 0);
        lemma_follows(nodes@, near_model::ways_from(costs@, c, n as int, 0), h@, base@, 0, n as int);
        assert(follows_at(nodes@, near_model::ways_from(costs@, c, n as int, 0), 0, n as int, 0));
    }
    tally_item_list(nodes, n, freqs, h, base);
    proof {
        lemma_path(h@, base@, n as int, nodes@, 0);
        lemma_counts_small(*freqs, h@, base@, path_items(nodes@, 0, n as int), n as int, 1);
    }
    make_huffman_codes(freqs, codes);
}

/// The cheapest way on depends on later nodes alone.
proof fn lemma_cheapest_same(
    costs: DeflateCosts,
    a: Seq<OptimumNode>,
    b: Seq<OptimumNode>,
    i: int,
    n: int,
    lit: int,
    ms: Seq<(int, int)>,
)
    requires
        cheapest(costs, a, i, n, lit, ms),
        0 <= i < n < a.len(),
        a.len() == b.len(),
        forall|j: int| i <= j <= n ==> a[j] == b[j],
        1 <= a[i].len(),
        i + a[i].len() <= n,
    ensures
        cheapest(costs, b, i, n, lit, ms),
{
    assert forall|k: int, len: int|
        #![trigger ms[k], b[i + len]]
        0 <= k < ms.len() && 3 <= len <= ms[k].0 && (k > 0 ==> ms[k - 1].0 < len) && i + len <= n
        implies b[i].cost_to_end <= match_cost(costs, len, ms[k].1) + b[i + len].cost_to_end by {
        assert(a[i + len] == b[i + len]);
    }
}

/// The literals of a block, as a parse.
proof fn lemma_literals(h: Seq<u8>, base: int, n: int)
    requires
        0 <= base,
        0 <= n,
        base + n <= h.len(),
    ensures
        items::parse_ok(h, base, sequences::literals(n)),
        items::end_of(base, sequences::literals(n)) == base + n,
        forall|s: int| #[trigger] items::offset_count(sequences::literals(n), s) == 0,
        forall|s: int|
            #[trigger] items::litlen_count(h, base, sequences::literals(n), s) == costs::byte_count(
                h,
                base,
                n as nat,
                s,
            ),
    decreases n,
{
    let its = sequences::literals(n);
    if n > 0 {
        lemma_literals(h, base, n - 1);
        assert(its.drop_last() =~= sequences::literals(n - 1));
        assert forall|s: int| #[trigger] items::offset_count(its, s) == 0 by {
            assert(items::offset_count(sequences::literals(n - 1), s) == 0);
        }
        assert forall|s: int| #[trigger] items::litlen_count(h, base, its, s) == costs::byte_count(
            h,
            base,
            n as nat,
            s,
        ) by {
            assert(items::litlen_count(h, base, sequences::literals(n - 1), s)
                == costs::byte_count(h, base, (n - 1) as nat, s));
        }
    }
}

/// Set up all-literals encoding: reset freqs, count literals, build codes.
pub fn choose_all_literals(
    input: &[u8],
    base: usize,
    n: usize,
    freqs: &mut DeflateFreqs,
    codes: &mut DeflateCodes,
)
    requires
        base + n <= input@.len(),
        n < 0x3f_ffff,
    ensures
        final(freqs).counts(input@, base as int, sequences::literals(n as int), 1),
        codes_fit(*final(freqs), *final(codes)),
{
    let ghost h = input@;
    let total: usize = input.len();
    freqs.reset();
    let mut i: usize = 0;
    while i < n
        invariant
            i <= n < 0x3f_ffff,
            h == input@,
            total == h.len(),
            base + n <= total,
            forall|s: int|
                0 <= s < 288 ==> #[trigger] freqs.litlen@[s] == costs::byte_count(
                    h,
                    base as int,
                    i as nat,
                    s,
                ),
            forall|s: int| 0 <= s < 288 ==> #[trigger] freqs.litlen@[s] <= i,
            forall|s: int| 0 <= s < 32 ==> #[trigger] freqs.offset@[s] == 0,
        decreases n - i,
    {
        let v: usize = input[base + i] as usize;
        let ghost f0 = *freqs;
        assert(f0.litlen@[v as int] <= i);
        freqs.litlen[v] = freqs.litlen[v] + 1;
        proof {
            assert forall|s: int| 0 <= s < 288 implies #[trigger] freqs.litlen@[s]
                == costs::byte_count(h, base as int, (i + 1) as nat, s) && freqs.litlen@[s] <= i
                + 1 by {
                assert(f0.litlen@[s] == costs::byte_count(h, base as int, i as nat, s));
                assert(f0.litlen@[s] <= i);
            }
        }
        i = i + 1;
    }
    let ghost f1 = *freqs;
    assert(f1.litlen@[256] <= n);
    freqs.litlen[256] = freqs.litlen[256] + 1;
    proof {
        lemma_literals(h, base as int, n as int);
        let its = sequences::literals(n as int);
        assert forall|s: int| 0 <= s < 288 implies #[trigger] freqs.litlen@[s]
            == items::litlen_count(h, base as int, its, s) + if s == 256 {
            1int
        } else {
            0
        } by {
            assert(f1.litlen@[s] == costs::byte_count(h, base as int, n as nat, s));
        }
        assert forall|s: int| 0 <= s < 32 implies #[trigger] freqs.offset@[s] == items::offset_count(
            its,
            s,
        ) by {
            assert(f1.offset@[s] == 0);
        }
        lemma_counts_small(*freqs, h, base as int, its, n as int, 1);
    }
    make_huffman_codes(freqs, codes);
}

/// Compute the true (exact) dynamic block cost from freqs and codes: the header
/// without the type of the block, and the symbols.
pub fn compute_true_cost(freqs: &DeflateFreqs, codes: &DeflateCodes) -> (cost: u64)
    requires
        codes.wf(),
    ensures
        cost == cost_model::true_cost(
            freqs.litlen@,
            freqs.offset@,
            codes.lens_litlen@,
            codes.lens_offset@,
        ),
        cost <= 0x4000_0000_0000,
{
    let nl: usize = num_syms(&codes.lens_litlen, 257);
    let no: usize = num_syms(&codes.lens_offset, 1);
    let lens: Vec<u8> = combine_lens(&codes.lens_litlen, nl, &codes.lens_offset, no);
    let pk: BestPrecodeResult = pack_lens(&lens, PrecodeFlags::standard());
    proof {
        cost_model::lemma_used_syms(codes.lens_litlen@, 257, 288, nl as int);
        cost_model::lemma_used_syms(codes.lens_offset@, 1, 32, no as int);
        cost_model::lemma_header_cost(lens@, PrecodeFlags::all_codes(), pk);
    }
    pk.cost as u64 + symbol_cost(freqs, codes)
}

/// All near-optimal-specific state.
pub struct NearOptimalState {
    /// Binary tree matchfinder.
    pub bt_mf: BtMatchfinder,
    /// Cached matches for the current block.
    pub match_cache: Vec<LzMatch>,
    /// Nodes of the graph of the current block.
    pub optimum_nodes: Vec<OptimumNode>,
    /// Current cost model.
    pub costs: DeflateCosts,
    /// Saved cost model (from the best optimization pass).
    pub costs_saved: DeflateCosts,
    /// Literal/match statistics saved from previous block.
    pub prev_observations: [u32; 10],
    /// Total observations from previous block.
    pub prev_num_observations: u32,
    /// Approximate match length frequencies (new, not yet merged).
    pub new_match_len_freqs: Vec<u32>,
    /// Approximate match length frequencies (merged).
    pub match_len_freqs: Vec<u32>,
    /// Maximum optimization passes per block.
    pub max_optim_passes: u32,
    /// Minimum cost improvement to continue optimizing.
    pub min_improvement_to_continue: u32,
    /// Minimum savings to use a non-final pass's path.
    pub min_bits_to_use_nonfinal_path: u32,
    /// Maximum block length to consider static Huffman optimization.
    pub max_len_to_optimize_static_block: u32,
}

/// The number of nodes: one for each byte of the longest block, and one for its
/// end.
pub const OPTIMUM_NODES_SIZE: usize = 305300;

/// Once the cache holds this many entries, the block is ended.
pub const MATCH_CACHE_LENGTH: usize = 1500000;

impl Clone for NearOptimalState {
    fn clone(&self) -> (r: Self)
        ensures
            self.wf() ==> r.wf(),
            forall|b: int, n: int| self.bt_mf.wf(b, n) ==> #[trigger] r.bt_mf.wf(b, n),
            r.match_cache@ == self.match_cache@,
            r.optimum_nodes@ == self.optimum_nodes@,
            r.costs == self.costs,
            r.costs_saved == self.costs_saved,
            r.prev_observations == self.prev_observations,
            r.prev_num_observations == self.prev_num_observations,
            r.new_match_len_freqs@ == self.new_match_len_freqs@,
            r.match_len_freqs@ == self.match_len_freqs@,
            r.max_optim_passes == self.max_optim_passes,
            r.min_improvement_to_continue == self.min_improvement_to_continue,
            r.min_bits_to_use_nonfinal_path == self.min_bits_to_use_nonfinal_path,
            r.max_len_to_optimize_static_block == self.max_len_to_optimize_static_block,
    {
        let match_cache: Vec<LzMatch> = self.match_cache.clone();
        let optimum_nodes: Vec<OptimumNode> = self.optimum_nodes.clone();
        let new_match_len_freqs: Vec<u32> = self.new_match_len_freqs.clone();
        let match_len_freqs: Vec<u32> = self.match_len_freqs.clone();
        assert(match_cache@ =~= self.match_cache@);
        assert(optimum_nodes@ =~= self.optimum_nodes@);
        assert(new_match_len_freqs@ =~= self.new_match_len_freqs@);
        assert(match_len_freqs@ =~= self.match_len_freqs@);
        NearOptimalState {
            bt_mf: self.bt_mf.clone(),
            match_cache,
            optimum_nodes,
            costs: self.costs,
            costs_saved: self.costs_saved,
            prev_observations: self.prev_observations,
            prev_num_observations: self.prev_num_observations,
            new_match_len_freqs,
            match_len_freqs,
            max_optim_passes: self.max_optim_passes,
            min_improvement_to_continue: self.min_improvement_to_continue,
            min_bits_to_use_nonfinal_path: self.min_bits_to_use_nonfinal_path,
            max_len_to_optimize_static_block: self.max_len_to_optimize_static_block,
        }
    }
}

impl NearOptimalState {
    /// The parts of the state fit each other.
    pub open spec fn wf(&self) -> bool {
        &&& self.optimum_nodes@.len() == 305300
        &&& self.new_match_len_freqs@.len() == 259
        &&& self.match_len_freqs@.len() == 259
        &&& self.costs.wf()
        &&& self.costs_saved.wf()
        &&& self.prev_num_observations <= 0x40_0000
        &&& forall|i: int|
            0 <= i < 10 ==> #[trigger] self.prev_observations@[i] <= self.prev_num_observations
        &&& self.max_optim_passes > 0
    }

    /// The approximate match length frequencies fit the observations.
    pub open spec fn stats_ok(&self, s: BlockSplitStats) -> bool {
        &&& s.wf()
        &&& forall|i: int|
            0 <= i < 259 ==> #[trigger] self.new_match_len_freqs@[i] <= s.num_new_observations
        &&& forall|i: int| 0 <= i < 259 ==> #[trigger] self.match_len_freqs@[i] <= s.num_observations
    }

    /// What is left of the last block.
    pub open spec fn memory(&self) -> Memory {
        Memory {
            prices: self.costs@,
            prev: costs::type_counts(self.prev_observations@),
            prev_num: self.prev_num_observations as int,
        }
    }

    /// Everything that filling a block does not change is the same.
    pub open spec fn unfilled(&self, o: Self) -> bool {
        &&& self.tuning() == o.tuning()
        &&& self.costs == o.costs
        &&& self.prev_observations == o.prev_observations
        &&& self.prev_num_observations == o.prev_num_observations
    }

    /// How much work a block is worth.
    pub open spec fn tuning(&self) -> Tuning {
        Tuning {
            passes: self.max_optim_passes as int,
            min_gain: self.min_improvement_to_continue as int,
            min_return: self.min_bits_to_use_nonfinal_path as int,
            static_len: self.max_len_to_optimize_static_block as int,
        }
    }

    /// Everything that only a block's optimization changes is the same.
    pub open spec fn same_but_costs(&self, o: Self) -> bool {
        &&& self.bt_mf == o.bt_mf
        &&& self.match_cache == o.match_cache
        &&& self.prev_observations == o.prev_observations
        &&& self.prev_num_observations == o.prev_num_observations
        &&& self.new_match_len_freqs == o.new_match_len_freqs
        &&& self.match_len_freqs == o.match_len_freqs
    }

    /// Create a new NearOptimalState with the given parameters.
    pub fn new(
        max_optim_passes: u32,
        min_improvement_to_continue: u32,
        min_bits_to_use_nonfinal_path: u32,
        max_len_to_optimize_static_block: u32,
    ) -> (r: Self)
        requires
            max_optim_passes > 0,
        ensures
            r.wf(),
            forall|b: int, n: int| #[trigger] r.bt_mf.wf(b, n),
            r.max_optim_passes == max_optim_passes,
            r.min_improvement_to_continue == min_improvement_to_continue,
            r.min_bits_to_use_nonfinal_path == min_bits_to_use_nonfinal_path,
            r.max_len_to_optimize_static_block == max_len_to_optimize_static_block,
    {
        let mut nodes: Vec<OptimumNode> = Vec::new();
        let mut k: usize = 0;
        while k < 305300
            invariant
                k <= 305300,
                nodes@.len() == k,
            decreases 305300 - k,
        {
            nodes.push(OptimumNode { cost_to_end: 0, item: 0 });
            k = k + 1;
        }
        NearOptimalState {
            bt_mf: BtMatchfinder::new(),
            match_cache: Vec::new(),
            optimum_nodes: nodes,
            costs: DeflateCosts::default(),
            costs_saved: DeflateCosts::default(),
            prev_observations: [0u32; 10],
            prev_num_observations: 0,
            new_match_len_freqs: zeros(259),
            match_len_freqs: zeros(259),
            max_optim_passes,
            min_improvement_to_continue,
            min_bits_to_use_nonfinal_path,
            max_len_to_optimize_static_block,
        }
    }

    /// Initialize stats for a new compression run.
    pub fn init_stats(&mut self, split_stats: &mut BlockSplitStats)
        requires
            old(self).wf(),
        ensures
            final(self).wf(),
            final(self).stats_ok(*final(split_stats)),
            final(split_stats).zero(),
            final(split_stats).observed() == block_split::nothing(),
            final(self).match_len_freqs@ == near_model::no_lens(),
            final(self).new_match_len_freqs@ == near_model::no_lens(),
            final(self).bt_mf == old(self).bt_mf,
            final(self).match_cache == old(self).match_cache,
            final(self).tuning() == old(self).tuning(),
            final(self).costs == old(self).costs,
            final(self).prev_observations == old(self).prev_observations,
            final(self).prev_num_observations == old(self).prev_num_observations,
    {
        *split_stats = BlockSplitStats::new();
        self.new_match_len_freqs = zeros(259);
        self.match_len_freqs = zeros(259);
        proof {
            assert(self.match_len_freqs@ =~= near_model::no_lens());
            assert(self.new_match_len_freqs@ =~= near_model::no_lens());
            assert(split_stats.observed() =~= block_split::nothing());
        }
    }

    /// Merge new stats into accumulated stats.
    pub fn merge_stats(&mut self, split_stats: &mut BlockSplitStats)
        requires
            old(self).wf(),
            old(self).stats_ok(*old(split_stats)),
            old(split_stats).total() <= 0x40_0000,
        ensures
            final(self).wf(),
            final(self).stats_ok(*final(split_stats)),
            final(split_stats).num_new_observations == 0,
            final(split_stats).num_observations == old(split_stats).total(),
            final(split_stats).observed() == block_split::merged(old(split_stats).observed()),
            final(self).match_len_freqs@ == near_model::merged_lens(
                old(self).match_len_freqs@,
                old(self).new_match_len_freqs@,
            ),
            final(self).new_match_len_freqs@ == near_model::no_lens(),
            final(self).tuning() == old(self).tuning(),
            final(self).costs == old(self).costs,
            final(self).prev_observations == old(self).prev_observations,
            final(self).prev_num_observations == old(self).prev_num_observations,
            final(self).bt_mf == old(self).bt_mf,
            final(self).match_cache == old(self).match_cache,
    {
        let ghost s0 = *split_stats;
        split_stats.merge_new_observations();
        self.merge_match_freqs(Ghost(s0));
    }

    /// Merge new match length frequencies into the accumulated ones.
    pub fn merge_match_freqs(&mut self, s0: Ghost<BlockSplitStats>)
        requires
            old(self).wf(),
            old(self).stats_ok(s0@),
            s0@.total() <= 0x40_0000,
        ensures
            final(self).wf(),
            forall|i: int|
                0 <= i < 259 ==> #[trigger] final(self).match_len_freqs@[i]
                    == old(self).match_len_freqs@[i] + old(self).new_match_len_freqs@[i],
            forall|i: int| 0 <= i < 259 ==> #[trigger] final(self).match_len_freqs@[i] <= s0@.total(),
            forall|i: int| 0 <= i < 259 ==> #[trigger] final(self).new_match_len_freqs@[i] == 0,
            final(self).match_len_freqs@ == near_model::merged_lens(
                old(self).match_len_freqs@,
                old(self).new_match_len_freqs@,
            ),
            final(self).new_match_len_freqs@ == near_model::no_lens(),
            final(self).tuning() == old(self).tuning(),
            final(self).costs == old(self).costs,
            final(self).prev_observations == old(self).prev_observations,
            final(self).prev_num_observations == old(self).prev_num_observations,
            final(self).bt_mf == old(self).bt_mf,
            final(self).match_cache == old(self).match_cache,
    {
        let ghost n0 = *self;
        let mut i: usize = 0;
        while i < 259
            invariant
                i <= 259,
                n0 == *old(self),
                n0.wf(),
                n0.stats_ok(s0@),
                s0@.total() <= 0x40_0000,
                self.wf(),
                self.bt_mf == n0.bt_mf,
                self.match_cache == n0.match_cache,
                self.tuning() == n0.tuning(),
                self.costs == n0.costs,
                self.prev_observations == n0.prev_observations,
                self.prev_num_observations == n0.prev_num_observations,
                forall|j: int|
                    0 <= j < i ==> #[trigger] self.match_len_freqs@[j] == n0.match_len_freqs@[j]
                        + n0.new_match_len_freqs@[j],
                forall|j: int| 0 <= j < i ==> #[trigger] self.new_match_len_freqs@[j] == 0,
                forall|j: int|
                    i <= j < 259 ==> #[trigger] self.match_len_freqs@[j] == n0.match_len_freqs@[j],
                forall|j: int|
                    i <= j < 259 ==> #[trigger] self.new_match_len_freqs@[j]
                        == n0.new_match_len_freqs@[j],
            decreases 259 - i,
        {
            assert(n0.match_len_freqs@[i as int] <= s0@.num_observations);
            assert(n0.new_match_len_freqs@[i as int] <= s0@.num_new_observations);
            assert(self.match_len_freqs@[i as int] == n0.match_len_freqs@[i as int]);
            assert(self.new_match_len_freqs@[i as int] == n0.new_match_len_freqs@[i as int]);
            let sum: u32 = self.match_len_freqs[i] + self.new_match_len_freqs[i];
            self.match_len_freqs.set(i, sum);
            self.new_match_len_freqs.set(i, 0);
            i = i + 1;
        }
        proof {
            assert forall|j: int| 0 <= j < 259 implies #[trigger] self.match_len_freqs@[j]
                <= s0@.total() by {
                assert(n0.match_len_freqs@[j] <= s0@.num_observations);
                assert(n0.new_match_len_freqs@[j] <= s0@.num_new_observations);
            }
            assert(self.match_len_freqs@ =~= near_model::merged_lens(
                n0.match_len_freqs@,
                n0.new_match_len_freqs@,
            )) by {
                assert forall|j: int| 0 <= j < 259 implies self.match_len_freqs@[j]
                    == near_model::merged_lens(n0.match_len_freqs@, n0.new_match_len_freqs@)[j] by {
                    assert(self.match_len_freqs@[j] <= s0@.total());
                }
            }
            assert(self.new_match_len_freqs@ =~= near_model::no_lens());
        }
    }

    /// Save current stats as "previous" for next block.
    pub fn save_stats(&mut self, split_stats: &BlockSplitStats)
        requires
            old(self).wf(),
            split_stats.wf(),
            split_stats.total() <= 0x40_0000,
        ensures
            final(self).wf(),
            final(self).prev_observations == split_stats.observations,
            final(self).prev_num_observations == split_stats.num_observations,
            final(self).tuning() == old(self).tuning(),
            final(self).costs == old(self).costs,
            final(self).bt_mf == old(self).bt_mf,
            final(self).match_cache == old(self).match_cache,
            final(self).new_match_len_freqs == old(self).new_match_len_freqs,
            final(self).match_len_freqs == old(self).match_len_freqs,
    {
        self.prev_observations = split_stats.observations;
        self.prev_num_observations = split_stats.num_observations;
    }

    /// Clear old stats, keeping only new (for partial block reset).
    pub fn clear_old_stats(&mut self, split_stats: &mut BlockSplitStats)
        requires
            old(self).wf(),
            old(self).stats_ok(*old(split_stats)),
        ensures
            final(self).wf(),
            final(self).stats_ok(*final(split_stats)),
            final(split_stats).num_observations == 0,
            final(split_stats).num_new_observations == old(split_stats).num_new_observations,
            final(split_stats).new_observations == old(split_stats).new_observations,
            final(self).new_match_len_freqs == old(self).new_match_len_freqs,
            final(self).bt_mf == old(self).bt_mf,
            final(self).match_cache == old(self).match_cache,
            final(self).match_len_freqs@ == near_model::no_lens(),
            final(split_stats).observed() == (Observed {
                before: Seq::new(10, |i: int| 0int),
                num_before: 0,
                ..old(split_stats).observed()
            }),
            final(self).tuning() == old(self).tuning(),
            final(self).costs == old(self).costs,
            final(self).prev_observations == old(self).prev_observations,
            final(self).prev_num_observations == old(self).prev_num_observations,
    {
        split_stats.observations = [0u32; 10];
        split_stats.num_observations = 0;
        self.match_len_freqs = zeros(259);
        proof {
            assert(self.match_len_freqs@ =~= near_model::no_lens());
            assert(split_stats.observed() =~= (Observed {
                before: Seq::new(10, |i: int| 0int),
                num_before: 0,
                ..old(split_stats).observed()
            }));
        }
    }

    /// Set initial costs for a block.
    pub fn set_initial_costs(
        &mut self,
        split_stats: &BlockSplitStats,
        max_search_depth: u32,
        input: &[u8],
        base: usize,
        n: usize,
        is_first_block: bool,
    )
        requires
            old(self).wf(),
            old(self).stats_ok(*split_stats),
            split_stats.total() <= 0x40_0000,
            base + n <= input@.len(),
            n <= 0x40_0000,
        ensures
            final(self).wf(),
            final(self).optimum_nodes == old(self).optimum_nodes,
            final(self).costs_saved == old(self).costs_saved,
            final(self).same_but_costs(*old(self)),
            final(self).max_optim_passes == old(self).max_optim_passes,
            final(self).tuning() == old(self).tuning(),
            final(self).costs@ == near_model::first_prices(
                input@,
                base as int,
                n as int,
                max_search_depth as int,
                is_first_block,
                old(self).match_len_freqs@,
                costs::type_counts(split_stats.observations@),
                split_stats.num_observations as int,
                old(self).costs@,
                costs::type_counts(old(self).prev_observations@),
                old(self).prev_num_observations as int,
            ),
    {
        proof {
            assert forall|i: int| 0 <= i < 259 implies #[trigger] self.match_len_freqs@[i]
                <= 0x40_0000 by {
                assert(self.match_len_freqs@[i] <= split_stats.num_observations);
            }
        }
        let d: (u32, u32) = choose_default_litlen_costs(
            &self.match_len_freqs,
            max_search_depth,
            input,
            base,
            n,
        );
        if is_first_block {
            set_default_costs(&mut self.costs, d.0, d.1);
            proof {
                costs::lemma_default_prices(self.costs, d.0 as int, d.1 as int);
            }
        } else {
            let ghost before = self.costs;
            adjust_costs(
                &mut self.costs,
                &self.prev_observations,
                self.prev_num_observations,
                split_stats,
                d.0,
                d.1,
            );
            proof {
                costs::lemma_moved_prices(
                    before,
                    self.costs,
                    costs::block_delta(
                        costs::type_counts(self.prev_observations@),
                        self.prev_num_observations as int,
                        costs::type_counts(split_stats.observations@),
                        split_stats.num_observations as int,
                        10,
                    ),
                    self.prev_num_observations * split_stats.num_observations * 200 / 512,
                    d.0 as int,
                    d.1 as int,
                );
            }
        }
    }

    /// Find the cheapest path through the block with the current costs.
    fn find_path(
        &mut self,
        n: usize,
        cache_end: usize,
        freqs: &mut DeflateFreqs,
        codes: &mut DeflateCodes,
        h: Ghost<Seq<u8>>,
        base: Ghost<int>,
    )
        requires
            old(self).wf(),
            n <= 305258,
            0 <= base@,
            base@ + n <= h@.len(),
            cache_end <= old(self).match_cache@.len(),
            cache_ok(h@, base@, base@ + n, old(self).match_cache@.take(cache_end as int)),
        ensures
            final(self).wf(),
            final(self).same_but_costs(*old(self)),
            final(self).costs == old(self).costs,
            final(self).costs_saved == old(self).costs_saved,
            final(self).max_optim_passes == old(self).max_optim_passes,
            path_ready(
                h@,
                base@,
                n as int,
                final(self).optimum_nodes@,
                *final(freqs),
                *final(codes),
            ),
            final(self).tuning() == old(self).tuning(),
            ({
                let c = old(self).match_cache@.take(cache_end as int);
                &&& path_items(final(self).optimum_nodes@, 0, n as int)
                    == near_model::cheapest_items(old(self).costs@, c, n as int)
                &&& final(self).optimum_nodes@[0].cost_to_end == near_model::ways_from(
                    old(self).costs@,
                    c,
                    n as int,
                    0,
                )[0].cost
            }),
    {
        find_min_cost_path(
            &mut self.optimum_nodes,
            &self.costs,
            n,
            &self.match_cache,
            cache_end,
            freqs,
            codes,
            h,
            base,
        );
    }

    /// Optimize and flush a near-optimal block.
    ///
    /// Runs multiple optimization passes, considers literal-only and static blocks,
    /// then flushes using the best approach.
    ///
    /// Returns true if the block used only literals (no matches).
    #[verifier::spinoff_prover]
    #[verifier::rlimit(60)]
    pub fn optimize_and_flush_block(
        &mut self,
        os: &mut OutputBitstream<'_>,
        input: &[u8],
        base: usize,
        n: usize,
        cache_end: usize,
        is_first_block: bool,
        is_final_block: bool,
        freqs: &mut DeflateFreqs,
        codes: &mut DeflateCodes,
        static_codes: &DeflateCodes,
        split_stats: &BlockSplitStats,
        max_search_depth: u32,
    ) -> (only_literals: bool)
        requires
            old(self).wf(),
            old(self).stats_ok(*split_stats),
            split_stats.total() <= 0x40_0000,
            old(os).flushed(),
            base + n <= input@.len(),
            n <= 305258,
            cache_end <= old(self).match_cache@.len(),
            cache_ok(
                input@,
                base as int,
                base + n,
                old(self).match_cache@.take(cache_end as int),
            ),
            static_codes.is_static(),
        ensures
            final(self).wf(),
            final(self).same_but_costs(*old(self)),
            final(final(os).buf)@ == final(old(os).buf)@,
            final(codes).wf(),
            final(self).tuning() == old(self).tuning(),
            ({
                let r = near_model::chosen(
                    input@,
                    base as int,
                    n as int,
                    old(self).match_cache@.take(cache_end as int),
                    old(self).tuning(),
                    near_model::first_prices(
                        input@,
                        base as int,
                        n as int,
                        max_search_depth as int,
                        is_first_block,
                        old(self).match_len_freqs@,
                        costs::type_counts(split_stats.observations@),
                        split_stats.num_observations as int,
                        old(self).costs@,
                        costs::type_counts(old(self).prev_observations@),
                        old(self).prev_num_observations as int,
                    ),
                );
                &&& only_literals == r.only_literals
                &&& final(self).costs@ == r.prices
                &&& block::flushed_block(
                    *old(os),
                    *final(os),
                    input@,
                    base as int,
                    n as int,
                    r.its,
                    is_final_block,
                )
                &&& !final(os).overflow ==> block::coded_as(
                    old(os).bits(),
                    final(os).bits(),
                    input@,
                    base as int,
                    n as int,
                    r.its,
                    is_final_block,
                )
                &&& final(os).overflow && !old(os).overflow ==> block::misfits(
                    old(os).bits(),
                    old(os).buf@.len() as int,
                    input@,
                    base as int,
                    n as int,
                    r.its,
                    is_final_block,
                    true,
                )
            }),
    {
        let ghost h = input@;
        let ghost b = base as int;
        let ghost b0 = os.bits();
        let mut passes: u32 = self.max_optim_passes;
        let mut best_true_cost: u64 = 0xffff_ffff;
        choose_all_literals(input, base, n, freqs, codes);
        let only_lits_cost: u64 = compute_true_cost(freqs, codes);
        let ghost t = self.tuning();
        let ghost c = self.match_cache@.take(cache_end as int);
        proof {
            lemma_items_cost(*freqs, *codes, h, b, sequences::literals(n as int));
        }

        // Consider static Huffman for small blocks
        let mut static_cost: u64 = 0xffff_ffff;
        if n as u64 <= self.max_len_to_optimize_static_block as u64 {
            self.costs_saved = self.costs;
            set_costs_from_codes(&mut self.costs, static_codes);
            proof {
                costs::lemma_code_prices(
                    self.costs,
                    static_codes.lens_litlen@,
                    static_codes.lens_offset@,
                );
            }
            self.find_path(n, cache_end, freqs, codes, Ghost(h), Ghost(b));
            static_cost = self.optimum_nodes[0].cost_to_end as u64 / 16 + 7;
            self.costs = self.costs_saved;
        }
        self.set_initial_costs(split_stats, max_search_depth, input, base, n, is_first_block);

        self.costs_saved = self.costs;
        let ghost first = self.costs@;
        let ghost end = near_model::passes(
            h,
            b,
            n as int,
            c,
            t.min_gain,
            first,
            first,
            0xffff_ffff,
            t.passes,
        );

        // Iterative optimization loop
        loop
            invariant_except_break
                passes > 0,
                end == near_model::passes(
                    h,
                    b,
                    n as int,
                    c,
                    t.min_gain,
                    self.costs@,
                    self.costs_saved@,
                    best_true_cost as int,
                    passes as int,
                ),
            invariant
                h == input@,
                t == self.tuning(),
                b == base,
                b + n <= h.len(),
                n <= 305258,
                best_true_cost <= 0x4000_0000_0000,
                self.wf(),
                self.same_but_costs(*old(self)),
                cache_end <= self.match_cache@.len(),
                c == self.match_cache@.take(cache_end as int),
                cache_ok(h, b, b + n, c),
            ensures
                self.wf(),
                self.same_but_costs(*old(self)),
                best_true_cost <= 0x4000_0000_0000,
                path_ready(h, b, n as int, self.optimum_nodes@, *freqs, *codes),
                end == (Passed {
                    prices: self.costs@,
                    saved: self.costs_saved@,
                    best: best_true_cost as int,
                    its: path_items(self.optimum_nodes@, 0, n as int),
                }),
            decreases passes,
        {
            self.find_path(n, cache_end, freqs, codes, Ghost(h), Ghost(b));
            let true_cost: u64 = compute_true_cost(freqs, codes);
            proof {
                lemma_items_cost(
                    *freqs,
                    *codes,
                    h,
                    b,
                    path_items(self.optimum_nodes@, 0, n as int),
                );
            }
            if true_cost + self.min_improvement_to_continue as u64 > best_true_cost {
                break;
            }
            best_true_cost = true_cost;
            self.costs_saved = self.costs;
            set_costs_from_codes(&mut self.costs, codes);
            proof {
                costs::lemma_code_prices(self.costs, codes.lens_litlen@, codes.lens_offset@);
            }
            passes = passes - 1;
            if passes == 0 {
                break;
            }
        }

        // Choose the best approach
        let true_cost: u64 = compute_true_cost(freqs, codes);
        proof {
            reveal(near_model::chosen);
            lemma_items_cost(*freqs, *codes, h, b, path_items(self.optimum_nodes@, 0, n as int));
        }
        if only_lits_cost < best_true_cost || static_cost < best_true_cost {
            if only_lits_cost < static_cost {
                choose_all_literals(input, base, n, freqs, codes);
                set_costs_from_codes(&mut self.costs, codes);
                proof {
                    costs::lemma_code_prices(self.costs, codes.lens_litlen@, codes.lens_offset@);
                    lemma_items_cost(*freqs, *codes, h, b, sequences::literals(n as int));
                }
                let mut seqs: Vec<Sequence> = Vec::new();
                seqs.push(
                    Sequence { litrunlen_and_length: n as u32, offset: 0, offset_slot: 0 },
                );
                proof {
                    lemma_literals(h, b, n as int);
                    assert(seqs@.drop_last() =~= Seq::empty());
                    assert(sequences::items_of(seqs@.drop_last()) =~= Seq::<(int, int)>::empty());
                    assert(seqs@.last().items() =~= sequences::literals(n as int));
                    assert(sequences::items_of(seqs@) =~= sequences::literals(n as int));
                }
                flush_block(
                    os,
                    input,
                    base,
                    n,
                    BlockOutput::Sequences(&seqs),
                    freqs,
                    codes,
                    static_codes,
                    is_final_block,
                );
                proof {
                    if !os.overflow {
                        block::lemma_coded_block(
                            b0,
                            os.bits(),
                            h,
                            b,
                            n as int,
                            sequences::literals(n as int),
                            is_final_block,
                            *freqs,
                            *codes,
                            true,
                        );
                    } else if !old(os).overflow {
                        block::lemma_misfits(
                            b0,
                            old(os).buf@.len() as int,
                            h,
                            b,
                            n as int,
                            sequences::literals(n as int),
                            is_final_block,
                            *freqs,
                            *codes,
                            true,
                        );
                    }
                }
                return true;
            }
            set_costs_from_codes(&mut self.costs, static_codes);
            proof {
                costs::lemma_code_prices(
                    self.costs,
                    static_codes.lens_litlen@,
                    static_codes.lens_offset@,
                );
            }
            self.find_path(n, cache_end, freqs, codes, Ghost(h), Ghost(b));
        } else if true_cost >= best_true_cost + self.min_bits_to_use_nonfinal_path as u64 {
            self.costs = self.costs_saved;
            self.find_path(n, cache_end, freqs, codes, Ghost(h), Ghost(b));
            set_costs_from_codes(&mut self.costs, codes);
            proof {
                costs::lemma_code_prices(self.costs, codes.lens_litlen@, codes.lens_offset@);
                lemma_items_cost(
                    *freqs,
                    *codes,
                    h,
                    b,
                    path_items(self.optimum_nodes@, 0, n as int),
                );
            }
        }
        proof {
            lemma_path(h, b, n as int, self.optimum_nodes@, 0);
            assert(literals_ok(self.optimum_nodes@, h, b, n as int)) by {
                assert forall|i: int|
                    0 <= i < n && (#[trigger] self.optimum_nodes@[i]).len() == 1 implies self.optimum_nodes@[i].arg()
                    == h[b + i] by {
                    assert(node_ok(h, b, n as int, self.optimum_nodes@, i));
                }
            }
        }
        flush_block(
            os,
            input,
            base,
            n,
            BlockOutput::Optimum { nodes: &self.optimum_nodes, block_length: n },
            freqs,
            codes,
            static_codes,
            is_final_block,
        );
        proof {
            if !os.overflow {
                block::lemma_coded_block(
                    b0,
                    os.bits(),
                    h,
                    b,
                    n as int,
                    path_items(self.optimum_nodes@, 0, n as int),
                    is_final_block,
                    *freqs,
                    *codes,
                    true,
                );
            } else if !old(os).overflow {
                block::lemma_misfits(
                    b0,
                    old(os).buf@.len() as int,
                    h,
                    b,
                    n as int,
                    path_items(self.optimum_nodes@, 0, n as int),
                    is_final_block,
                    *freqs,
                    *codes,
                    true,
                );
            }
        }
        false
    }
}

/// A vector of zeros.
fn zeros(n: usize) -> (r: Vec<u32>)
    ensures
        r@.len() == n,
        forall|i: int| 0 <= i < n ==> #[trigger] r@[i] == 0,
{
    let mut r: Vec<u32> = Vec::new();
    let mut k: usize = 0;
    while k < n
        invariant
            k <= n,
            r@.len() == k,
            forall|i: int| 0 <= i < k ==> #[trigger] r@[i] == 0,
        decreases n - k,
    {
        r.push(0);
        k = k + 1;
    }
    r
}

} // verus!
