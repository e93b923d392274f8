//! What near-optimal compression writes, as a function of the data and the parameters.

use crate::compress::block;
use crate::compress::block_split;
use crate::compress::block_split::Observed;
use crate::compress::cost_model;
use crate::compress::costs;
use crate::compress::costs::Prices;
use crate::compress::items;
use crate::compress::level;
use crate::compress::level::CompressionLevel;
use crate::compress::near_optimal;
use crate::compress::optimal_model;
use crate::compress::optimal_model::{Scan, Spot};
use crate::compress::params;
use crate::compress::progress;
use crate::compress::sequences;
use crate::stream;
use crate::matchfinder::bt::LzMatch;
use vstd::prelude::*;

verus! {

/// A way on from a position: what it costs up to the end of the block, and the length and
/// the offset, or the byte, of its first item.
#[verifier::ext_equal]
pub struct Way {
    pub cost: int,
    pub len: int,
    pub arg: int,
}

/// The cheapest way on, given the cheapest one with the literal, the matches before the
/// `k`th, and that one with the lengths below `l`. Of ways with the same cost the first one
/// counts; `rest` holds the ways from the positions behind this one.
pub open spec fn over_matches(
    p: Prices,
    rest: Seq<Way>,
    ms: Seq<(int, int)>,
    k: int,
    l: int,
    best: Way,
) -> Way
    decreases ms.len() - k, ms[k].0 + 1 - l,
{
    if !(0 <= k < ms.len()) {
        best
    } else if l > ms[k].0 {
        over_matches(p, rest, ms, k + 1, l, best)
    } else {
        let cost = p.slot[items::offset_slot_of(ms[k].1)] + p.len[l] + rest[l - 1].cost;
        over_matches(
            p,
            rest,
            ms,
            k,
            l + 1,
            if l <= rest.len() && cost < best.cost {
                Way { cost, len: l, arg: ms[k].1 }
            } else {
                best
            },
        )
    }
}

/// The cheapest way on from a position with this byte and these matches.
pub open spec fn best_way(p: Prices, rest: Seq<Way>, lit: int, ms: Seq<(int, int)>) -> Way {
    over_matches(
        p,
        rest,
        ms,
        0,
        3,
        Way { cost: p.lit[lit] + rest[0].cost, len: 1, arg: lit },
    )
}

/// The cheapest ways from the positions of a block of `n` bytes, from the `i`th on; the
/// cache holds the matches.
pub open spec fn ways_from(p: Prices, c: Seq<LzMatch>, n: int, i: int) -> Seq<Way>
    decreases n - i,
{
    if i >= n {
        seq![Way { cost: 0, len: 0, arg: 0 }]
    } else {
        let rest = ways_from(p, c, n, i + 1);
        let e = near_optimal::rewound(c, (n - 1 - i) as nat);
        seq![best_way(p, rest, e.last().offset as int, near_optimal::last_matches(e))] + rest
    }
}

/// There is a way from each position, and one at the end.
pub proof fn lemma_ways_len(p: Prices, c: Seq<LzMatch>, n: int, i: int)
    requires
        i <= n,
    ensures
        ways_from(p, c, n, i).len() == n - i + 1,
    decreases n - i,
{
    if i < n {
        lemma_ways_len(p, c, n, i + 1);
    }
}

/// The items on the way from position `cur` to the end.
pub open spec fn walked(ways: Seq<Way>, cur: int, n: int) -> Seq<(int, int)>
    decreases n - cur,
{
    if cur >= n || ways[cur].len <= 0 || cur + ways[cur].len > n {
        Seq::empty()
    } else {
        seq![
            if ways[cur].len == 1 {
                (1int, 0int)
            } else {
                (ways[cur].len, ways[cur].arg)
            },
        ] + walked(ways, cur + ways[cur].len, n)
    }
}

/// The cheapest items through a block of `n` bytes.
pub open spec fn cheapest_items(p: Prices, c: Seq<LzMatch>, n: int) -> Seq<(int, int)> {
    walked(ways_from(p, c, n, 0), 0, n)
}

/// The counters of the literal/length symbols of items, with the end-of-block symbol.
pub open spec fn symbols_of(h: Seq<u8>, base: int, its: Seq<(int, int)>) -> Seq<u32> {
    Seq::new(
        288,
        |s: int|
            (items::litlen_count(h, base, its, s) + if s == 256 {
                1int
            } else {
                0
            }) as u32,
    )
}

/// The counters of the offset symbols of items.
pub open spec fn offsets_of(its: Seq<(int, int)>) -> Seq<u32> {
    Seq::new(32, |s: int| items::offset_count(its, s) as u32)
}

/// What items cost as a block with its own codes.
pub open spec fn items_cost(h: Seq<u8>, base: int, its: Seq<(int, int)>) -> int {
    cost_model::cost_of_counts(symbols_of(h, base, its), offsets_of(its))
}

/// The prices that the codes of a block with these items give.
pub open spec fn prices_after(h: Seq<u8>, base: int, its: Seq<(int, int)>) -> Prices {
    costs::code_prices(
        cost_model::code_for(symbols_of(h, base, its), 14),
        cost_model::code_for(offsets_of(its), 15),
    )
}

/// The prices of the static codes.
pub open spec fn static_prices() -> Prices {
    costs::code_prices(stream::static_litlen_lens(), stream::static_offset_lens())
}

/// How much work a block is worth: the number of passes, the least gain that is worth
/// another pass, the least gain that is worth going back to an earlier one, and the length
/// up to which the static codes are tried.
pub struct Tuning {
    pub passes: int,
    pub min_gain: int,
    pub min_return: int,
    pub static_len: int,
}

/// How much work a block is worth at a level.
pub open spec fn tuning_of(level: CompressionLevel) -> Tuning {
    let p = level::near_params(level);
    Tuning {
        passes: p.0 as int,
        min_gain: p.1 as int,
        min_return: p.2 as int,
        static_len: p.3 as int,
    }
}

/// What the passes over a block end with: the prices for the next pass, those of the best
/// one, what that one costs, and the items of the last one.
#[verifier::ext_equal]
pub struct Passed {
    pub prices: Prices,
    pub saved: Prices,
    pub best: int,
    pub its: Seq<(int, int)>,
}

/// Pass over a block again and again, each time with the prices that the last pass gives,
/// as long as that gains enough and passes are left.
pub open spec fn passes(
    h: Seq<u8>,
    base: int,
    n: int,
    c: Seq<LzMatch>,
    min_gain: int,
    prices: Prices,
    saved: Prices,
    best: int,
    left: int,
) -> Passed
    decreases left,
{
    let its = cheapest_items(prices, c, n);
    let cost = items_cost(h, base, its);
    if cost + min_gain > best {
        Passed { prices, saved, best, its }
    } else {
        let next = prices_after(h, base, its);
        if left <= 1 {
            Passed { prices: next, saved: prices, best: cost, its }
        } else {
            passes(h, base, n, c, min_gain, next, prices, cost, left - 1)
        }
    }
}

/// What is written of a block, and the prices that it leaves.
#[verifier::ext_equal]
pub struct Chosen {
    pub its: Seq<(int, int)>,
    pub only_literals: bool,
    pub prices: Prices,
}

/// What the cheapest way with the static codes costs, where it is tried.
pub open spec fn static_cost(c: Seq<LzMatch>, n: int, static_len: int) -> int {
    if n <= static_len {
        ways_from(static_prices(), c, n, 0)[0].cost / 16 + 7
    } else {
        0xffff_ffff
    }
}

/// What is written of a block that starts with these prices: literals only or the way that
/// is cheapest with the static codes, where one of them is cheaper than the best pass; else
/// what the best pass gives, where the last one is worse by enough; else what the last one
/// gives.
#[verifier::opaque]
pub open spec fn chosen(
    h: Seq<u8>,
    base: int,
    n: int,
    c: Seq<LzMatch>,
    t: Tuning,
    prices: Prices,
) -> Chosen {
    let lits = sequences::literals(n);
    let lits_cost = items_cost(h, base, lits);
    let fixed_cost = static_cost(c, n, t.static_len);
    let e = passes(h, base, n, c, t.min_gain, prices, prices, 0xffff_ffff, t.passes);
    if lits_cost < e.best || fixed_cost < e.best {
        if lits_cost < fixed_cost {
            Chosen { its: lits, only_literals: true, prices: prices_after(h, base, lits) }
        } else {
            Chosen {
                its: cheapest_items(static_prices(), c, n),
                only_literals: false,
                prices: static_prices(),
            }
        }
    } else if items_cost(h, base, e.its) >= e.best + t.min_return {
        let its = cheapest_items(e.saved, c, n);
        Chosen { its, only_literals: false, prices: prices_after(h, base, its) }
    } else {
        Chosen { its: e.its, only_literals: false, prices: e.prices }
    }
}

/// The prices that a block starts with: the default ones for its bytes and match lengths in
/// the first block, else those of the previous block, moved towards the default ones.
pub open spec fn first_prices(
    h: Seq<u8>,
    base: int,
    n: int,
    depth: int,
    first: bool,
    lens: Seq<u32>,
    now: Seq<int>,
    num: int,
    prices: Prices,
    prev: Seq<int>,
    prev_num: int,
) -> Prices {
    let used = costs::used_count(h, base, n as nat);
    let kind = costs::match_kind(lens, n, params::min_match_len(used, depth));
    let lit = costs::default_lit_cost(kind, used);
    let len = costs::default_len_sym_cost(kind);
    if first {
        costs::default_prices(lit, len)
    } else {
        costs::moved_prices(
            prices,
            costs::block_delta(prev, prev_num, now, num, 10),
            prev_num * num * 200 / 512,
            lit,
            len,
        )
    }
}

/// A block that is being filled: the position, what the cache holds for the positions
/// before it, what was observed, the match lengths that count and the recent ones, the
/// position that is observed next, and where the observations were last found not to
/// differ.
#[verifier::ext_equal]
pub struct Fill {
    pub spot: Spot,
    pub cache: Seq<LzMatch>,
    pub o: Observed,
    pub lens: Seq<u32>,
    pub recent: Seq<u32>,
    pub watch: int,
    pub checked: Option<int>,
}

/// No match lengths.
pub open spec fn no_lens() -> Seq<u32> {
    Seq::new(259, |i: int| 0u32)
}

/// The recent match lengths count with the others.
pub open spec fn merged_lens(lens: Seq<u32>, recent: Seq<u32>) -> Seq<u32> {
    Seq::new(259, |i: int| (lens[i] + recent[i]) as u32)
}

/// The matches at the position are looked for. The longest one is observed, or the byte
/// where it is too short, unless a match that was observed covers the position.
#[verifier::opaque]
pub open spec fn look_on(f: Fill, h: Seq<u8>, min_len: int, depth: int) -> Fill {
    let p = f.spot.next;
    let best = optimal_model::longest(optimal_model::found(f.spot, h, depth));
    let s = optimal_model::scan_step(Scan { spot: f.spot, cache: f.cache }, h, depth);
    let g = Fill { spot: s.spot, cache: s.cache, ..f };
    if p < f.watch {
        g
    } else if best >= min_len {
        Fill {
            o: block_split::seen(f.o, block_split::match_type(best)),
            recent: f.recent.update(best, (f.recent[best] + 1) as u32),
            watch: p + best,
            ..g
        }
    } else {
        Fill { o: block_split::seen(f.o, block_split::literal_type(h[p])), watch: p + 1, ..g }
    }
}

/// The observations so far were found not to differ.
pub open spec fn merged_fill(f: Fill) -> Fill {
    Fill {
        o: block_split::merged(f.o),
        lens: merged_lens(f.lens, f.recent),
        recent: no_lens(),
        checked: Some(f.spot.next),
        ..f
    }
}

/// Fill a block up to where it ends: at the latest possible place, where the cache is full,
/// or where the recent observations differ from those before them. In the last case the
/// block ends where they were last found not to differ, if there is such a place.
pub open spec fn filled(
    f: Fill,
    h: Seq<u8>,
    begin: int,
    max_end: int,
    min_len: int,
    depth: int,
) -> (Fill, Option<int>)
    decreases h.len() - f.spot.next,
{
    let g = look_on(f, h, min_len, depth);
    let next = g.spot.next;
    if next >= max_end || g.cache.len() >= 1500000 || !(f.spot.next < next < h.len()) {
        (g, None)
    } else if !block_split::is_ready(g.o, begin, next, h.len() as int) {
        filled(g, h, begin, max_end, min_len, depth)
    } else if block_split::differs(g.o, next - begin) {
        (g, g.checked)
    } else {
        filled(merged_fill(g), h, begin, max_end, min_len, depth)
    }
}

/// Between two blocks: the position up to which matches were looked for, what the cache
/// holds from the beginning of the next block up to it, what was observed there, and the
/// prices and the observations of the last block, with whether it used literals only.
#[verifier::ext_equal]
pub struct Near {
    pub spot: Spot,
    pub cache: Seq<LzMatch>,
    pub begin: int,
    pub o: Observed,
    pub lens: Seq<u32>,
    pub recent: Seq<u32>,
    pub prices: Prices,
    pub prev: Seq<int>,
    pub prev_num: int,
    pub only_literals: bool,
}

/// What filling the next block ends with.
pub open spec fn next_fill(s: Near, h: Seq<u8>, depth: int) -> (Fill, Option<int>) {
    let max_end = progress::max_block_end(s.begin, h.len() as int, 300000);
    filled(
        Fill {
            spot: s.spot,
            cache: s.cache,
            o: s.o,
            lens: s.lens,
            recent: s.recent,
            watch: s.spot.next,
            checked: None,
        },
        h,
        s.begin,
        max_end,
        if s.only_literals {
            259
        } else {
            params::initial_min_len(h, s.begin, max_end, depth)
        },
        depth,
    )
}

/// What is written of a block that ends at `end`, or at the position where `end` is not
/// given.
pub open spec fn next_chosen(
    s: Near,
    h: Seq<u8>,
    depth: int,
    t: Tuning,
    f: Fill,
    end: Option<int>,
) -> Chosen {
    let stop = match end {
        Some(at) => at,
        None => f.spot.next,
    };
    let o = if end is Some {
        f.o
    } else {
        block_split::merged(f.o)
    };
    let lens = if end is Some {
        f.lens
    } else {
        merged_lens(f.lens, f.recent)
    };
    chosen(
        h,
        s.begin,
        stop - s.begin,
        near_optimal::rewound(f.cache, (f.spot.next - stop) as nat),
        t,
        first_prices(
            h,
            s.begin,
            stop - s.begin,
            depth,
            s.begin == 0,
            lens,
            o.before,
            o.num_before,
            s.prices,
            s.prev,
            s.prev_num,
        ),
    )
}

/// What comes behind a block that ends at `end`, or at the position where `end` is not
/// given. In the first case the observations behind the block stay.
pub open spec fn next_near(f: Fill, end: Option<int>, r: Chosen) -> Near {
    let stop = match end {
        Some(at) => at,
        None => f.spot.next,
    };
    let o = if end is Some {
        f.o
    } else {
        block_split::merged(f.o)
    };
    Near {
        spot: f.spot,
        cache: f.cache.skip(
            near_optimal::rewound(f.cache, (f.spot.next - stop) as nat).len() as int,
        ),
        begin: stop,
        o: if end is Some {
            Observed { before: Seq::new(10, |i: int| 0int), num_before: 0, ..f.o }
        } else {
            block_split::nothing()
        },
        lens: no_lens(),
        recent: if end is Some {
            f.recent
        } else {
            no_lens()
        },
        prices: r.prices,
        prev: o.before,
        prev_num: o.num_before,
        only_literals: r.only_literals,
    }
}

/// The items of the next block, and what comes behind it.
pub open spec fn near_block(s: Near, h: Seq<u8>, depth: int, t: Tuning) -> (Near, Seq<(int, int)>) {
    let (f, end) = next_fill(s, h, depth);
    let r = next_chosen(s, h, depth, t, f, end);
    (next_near(f, end, r), r.its)
}

/// What a run begins with, and how it goes on.
pub struct Setup {
    pub first: Near,
    pub depth: int,
    pub tuning: Tuning,
}

/// What comes behind `k` blocks.
pub open spec fn after_blocks(c: Setup, h: Seq<u8>, k: nat) -> Near
    decreases k,
{
    if k == 0 {
        c.first
    } else {
        near_block(after_blocks(c, h, (k - 1) as nat), h, c.depth, c.tuning).0
    }
}

/// The bits `b1` are the bits `b` and the block behind `s`, written in the cheapest of three
/// ways.
pub open spec fn near_written(
    c: Setup,
    h: Seq<u8>,
    b: Seq<bool>,
    b1: Seq<bool>,
    last: bool,
    s: Near,
) -> bool {
    let (t, its) = near_block(s, h, c.depth, c.tuning);
    &&& s.begin < t.begin
    &&& block::coded_as(
        b,
        b1,
        h,
        s.begin,
        t.begin - s.begin,
        its,
        last && t.begin == h.len(),
    )
}

/// The bits `b1` are the bits `b` and the `k`th block.
pub open spec fn block_written(
    c: Setup,
    h: Seq<u8>,
    b: Seq<bool>,
    b1: Seq<bool>,
    last: bool,
    k: nat,
) -> bool {
    near_written(c, h, b, b1, last, after_blocks(c, h, (k - 1) as nat))
}

/// The bits `b1` are the bits `b0` and `k` blocks, each of them written in the cheapest of
/// three ways.
pub open spec fn blocks_written(
    c: Setup,
    h: Seq<u8>,
    b0: Seq<bool>,
    b1: Seq<bool>,
    last: bool,
    k: nat,
) -> bool
    decreases k,
{
    if k == 0 {
        b1 == b0
    } else {
        exists|b: Seq<bool>|
            {
                &&& blocks_written(c, h, b0, b, last, (k - 1) as nat)
                &&& #[trigger] block_written(c, h, b, b1, last, k)
            }
    }
}

/// The bits `b1` are the bits `b0` and the blocks up to `s`.
#[verifier::opaque]
pub open spec fn written_to(
    c: Setup,
    h: Seq<u8>,
    b0: Seq<bool>,
    b1: Seq<bool>,
    last: bool,
    s: Near,
) -> bool {
    exists|k: nat|
        {
            &&& #[trigger] blocks_written(c, h, b0, b1, last, k)
            &&& after_blocks(c, h, k) == s
        }
}

/// The bits `b1` are the bits `b0` and the blocks of all of the data.
pub open spec fn near_coded(
    c: Setup,
    h: Seq<u8>,
    b0: Seq<bool>,
    b1: Seq<bool>,
    last: bool,
) -> bool {
    exists|s: Near| s.begin == h.len() && #[trigger] written_to(c, h, b0, b1, last, s)
}

/// What is left of an earlier run: the prices and the observations of its last block.
#[verifier::ext_equal]
pub struct Memory {
    pub prices: Prices,
    pub prev: Seq<int>,
    pub prev_num: int,
}

/// What a run from `chunk_start` on begins with.
pub open spec fn setup_at(
    h: Seq<u8>,
    chunk_start: int,
    nice: int,
    depth: int,
    tuning: Tuning,
    m: Memory,
) -> Setup {
    Setup {
        first: Near {
            spot: optimal_model::first_scan(h, chunk_start, nice, depth).spot,
            cache: Seq::empty(),
            begin: chunk_start,
            o: block_split::nothing(),
            lens: no_lens(),
            recent: no_lens(),
            prices: m.prices,
            prev: m.prev,
            prev_num: m.prev_num,
            only_literals: false,
        },
        depth,
        tuning,
    }
}

/// The bits `b0` and the first of the blocks take more than `room` bytes.
#[verifier::opaque]
pub open spec fn spills(
    c: Setup,
    h: Seq<u8>,
    b0: Seq<bool>,
    last: bool,
    room: int,
) -> bool {
    exists|b1: Seq<bool>, k: nat|
        #[trigger] blocks_written(c, h, b0, b1, last, k) && block::too_long(b1, room)
}

pub proof fn lemma_written_start(c: Setup, h: Seq<u8>, b: Seq<bool>, last: bool)
    ensures
        written_to(c, h, b, b, last, c.first),
{
    reveal(written_to);
    assert(blocks_written(c, h, b, b, last, 0));
}

/// One more block.
pub proof fn lemma_written_step(
    c: Setup,
    h: Seq<u8>,
    b0: Seq<bool>,
    b: Seq<bool>,
    b1: Seq<bool>,
    last: bool,
    s: Near,
)
    requires
        written_to(c, h, b0, b, last, s),
        near_written(c, h, b, b1, last, s),
    ensures
        written_to(c, h, b0, b1, last, near_block(s, h, c.depth, c.tuning).0),
{
    reveal(written_to);
    let k = choose|k: nat|
        {
            &&& #[trigger] blocks_written(c, h, b0, b, last, k)
            &&& after_blocks(c, h, k) == s
        };
    assert((k + 1 - 1) as nat == k);
    assert(block_written(c, h, b, b1, last, k + 1));
    assert(blocks_written(c, h, b0, b1, last, k + 1));
}

/// The next block does not fit.
pub proof fn lemma_spills(
    c: Setup,
    h: Seq<u8>,
    b0: Seq<bool>,
    b: Seq<bool>,
    last: bool,
    room: int,
    s: Near,
)
    requires
        written_to(c, h, b0, b, last, s),
        ({
            let (t, its) = near_block(s, h, c.depth, c.tuning);
            &&& s.begin < t.begin
            &&& block::misfits(
                b,
                room,
                h,
                s.begin,
                t.begin - s.begin,
                its,
                last && t.begin == h.len(),
                true,
            )
        }),
    ensures
        spills(c, h, b0, last, room),
{
    reveal(block::misfits);
    reveal(spills);
    let (t, its) = near_block(s, h, c.depth, c.tuning);
    let fin = last && t.begin == h.len();
    let b1 = choose|b1: Seq<bool>|
        #[trigger] block::coded_with(b, b1, h, s.begin, t.begin - s.begin, its, fin, true)
            && block::too_long(b1, room);
    assert(near_written(c, h, b, b1, last, s));
    lemma_written_step(c, h, b0, b, b1, last, s);
    reveal(written_to);
}

} // verus!
