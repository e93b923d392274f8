//! What the binary trees remember, and what they find.

use crate::compress::chain_memory;
use crate::compress::items;
use crate::compress::near_model;
use crate::compress::near_model::Tuning;
use crate::compress::near_optimal;
use crate::compress::near_tight;
use crate::compress::optimal_model;
use crate::compress::optimal_model::Spot;
use crate::compress::sequences;
use crate::fast_bytes;
use crate::matchfinder;
use crate::matchfinder::bt;
use crate::matchfinder::bt::{LzMatch, Walk};
use crate::stream;
use vstd::prelude::*;

verus! {

/// The latest position that was entered under a hash of four bytes.
pub open spec fn root(s: Spot, k: int) -> int {
    s.base + s.tabs.t4[k]
}

/// The tables of the spot can be used.
pub open spec fn usable(s: Spot) -> bool {
    &&& s.tabs.t3.len() == 131072
    &&& s.tabs.t4.len() == 65536
    &&& s.tabs.child.len() == 65536
    &&& 0 <= s.base <= s.next < s.base + 65536
    &&& 0 <= s.hash3 < 65536
    &&& 0 <= s.hash4 < 65536
}

/// Going on along a tree loses no match.
proof fn lemma_walk_grows(h: Seq<u8>, base: int, next: int, max: int, nice: int, w: Walk)
    requires
        w.met.len() > 0,
        w.met.last().0 == w.best,
    ensures
        optimal_model::longest(bt::walked(h, base, next, max, nice, w).1) >= w.best,
    decreases w.depth,
{
    if w.depth > 0 && w.node > next - base - 32768 {
        let pos = base + w.node;
        let len = bt::agree(h, pos, next, max);
        let met = if len > w.best {
            w.met.push((len, next - pos))
        } else {
            w.met
        };
        let best = if len > w.best {
            len
        } else {
            w.best
        };
        let left = bt::left_idx(w.node);
        if len < nice {
            if h[pos + len] < h[next + len] {
                let c = w.child.update(w.lt, w.node as i16);
                lemma_walk_grows(
                    h,
                    base,
                    next,
                    max,
                    nice,
                    Walk {
                        child: c,
                        lt: left + 1,
                        gt: w.gt,
                        node: c[left + 1] as int,
                        depth: (w.depth - 1) as nat,
                        best,
                        met,
                    },
                );
            } else {
                let c = w.child.update(w.gt, w.node as i16);
                lemma_walk_grows(
                    h,
                    base,
                    next,
                    max,
                    nice,
                    Walk {
                        child: c,
                        lt: w.lt,
                        gt: left,
                        node: c[left] as int,
                        depth: (w.depth - 1) as nat,
                        best,
                        met,
                    },
                );
            }
        }
    }
}

/// The window holds the position, and the roots in it are the same.
proof fn lemma_settled(s: Spot, h: Seq<u8>, k: int)
    requires
        usable(s),
        0 <= k < 65536,
    ensures
        ({
            let q = optimal_model::settled(s, h);
            &&& q.base <= q.next < q.base + 32768
            &&& s.next - root(s, k) < 32768 ==> root(q, k) == root(s, k)
            &&& usable(q)
        }),
{
    chain_memory::lemma_slid(s.tabs.t4, s.base, 1, k);
    reveal_with_fuel(matchfinder::slid, 2);
}

/// The search of the trees finds a match that is at least as long as the one with the latest
/// position that has the same hash: where the bytes there agree with those at the spot for
/// `len` bytes, four or more.
pub proof fn law_tree_finds_latest(s: Spot, h: Seq<u8>, depth: int, len: int)
    requires
        usable(s),
        depth >= 1,
        s.next - root(s, s.hash4) < 32768,
        0 <= root(s, s.hash4) < s.next,
        5 <= optimal_model::settled(s, h).max_len,
        4 <= len <= optimal_model::settled(s, h).max_len,
        items::is_match(h, s.next, len, s.next - root(s, s.hash4)),
    ensures
        optimal_model::longest(optimal_model::found(s, h, depth)) >= len,
{
    let q = optimal_model::settled(s, h);
    lemma_settled(s, h, s.hash4);
    let node = q.tabs.t4[q.hash4] as int;
    let pos = q.base + node;
    assert(pos == root(s, s.hash4));
    let a = h.skip(s.next);
    let b = h.skip(pos);
    assert forall|i: int| 0 <= i < len implies a[i] == b[i] by {
        assert(h[s.next + i] == h[s.next + i - (s.next - pos)]);
    }
    chain_memory::lemma_common_least(a, b, 0, q.max_len, len);
    let l = bt::agree(h, pos, q.next, q.max_len);
    assert(l >= len);
    let met0 = optimal_model::three_at(q, h);
    let met = met0.push((l, q.next - pos));
    let left = bt::left_idx(node);
    let lt = bt::left_idx(q.next - q.base);
    if l < q.nice_len {
        if h[pos + l] < h[q.next + l] {
            let c = q.tabs.child.update(lt, node as i16);
            lemma_walk_grows(
                h,
                q.base,
                q.next,
                q.max_len,
                q.nice_len,
                Walk {
                    child: c,
                    lt: left + 1,
                    gt: lt + 1,
                    node: c[left + 1] as int,
                    depth: (depth - 1) as nat,
                    best: l,
                    met,
                },
            );
        } else {
            let c = q.tabs.child.update(lt + 1, node as i16);
            lemma_walk_grows(
                h,
                q.base,
                q.next,
                q.max_len,
                q.nice_len,
                Walk {
                    child: c,
                    lt,
                    gt: left,
                    node: c[left] as int,
                    depth: (depth - 1) as nat,
                    best: l,
                    met,
                },
            );
        }
    }
}

/// The position of a search is entered: it is the latest one with its hash, and for every
/// other hash the latest position stays the same, as long as it lies in the window.
pub proof fn law_tree_enters(s: Spot, h: Seq<u8>, depth: int, k: int)
    requires
        usable(s),
        0 <= k < 65536,
        optimal_model::settled(s, h).max_len >= 5,
    ensures
        ({
            let a = optimal_model::after_find(s, h, depth);
            &&& a.next == s.next + 1
            &&& root(a, s.hash4) == s.next
            &&& k != s.hash4 && s.next - root(s, k) < 32768 ==> root(a, k) == root(s, k)
            &&& a.hash4 == matchfinder::hash_of(fast_bytes::le32(h, s.next + 1), 16)
        }),
        ({
            let a = optimal_model::after_enter(s, h, depth);
            &&& a.next == s.next + 1
            &&& root(a, s.hash4) == s.next
            &&& k != s.hash4 && s.next - root(s, k) < 32768 ==> root(a, k) == root(s, k)
            &&& a.hash4 == matchfinder::hash_of(fast_bytes::le32(h, s.next + 1), 16)
        }),
{
    lemma_settled(s, h, k);
}

/// What is written of a block of the near-optimal strategy is never much dearer than its
/// bytes as literals: in codes of its own or in the static ones, it takes no more bits than
/// those, but for the gain that is not worth going back to an earlier pass.
pub proof fn law_chosen_beats_literals(
    h: Seq<u8>,
    base: int,
    n: int,
    c: Seq<LzMatch>,
    t: Tuning,
    prices: crate::compress::costs::Prices,
)
    requires
        near_optimal::cache_ok(h, base, base + n, c),
        0 <= base,
        0 <= n,
        base + n <= h.len(),
        0 <= t.min_gain,
        0 <= t.min_return,
        near_model::items_cost(h, base, sequences::literals(n)) < 0xffff_ffff,
    ensures
        ({
            let its = near_model::chosen(h, base, n, c, t, prices).its;
            let most = near_model::items_cost(h, base, sequences::literals(n)) + t.min_return;
            ||| near_model::items_cost(h, base, its) <= most
            ||| 7 + items::cost(
                h,
                base,
                its,
                stream::static_litlen_lens(),
                stream::static_offset_lens(),
            ) <= most
        }),
{
    reveal(near_model::chosen);
    near_tight::lemma_passes(h, base, n, c, t.min_gain, prices, prices, 0xffff_ffff, t.passes);
    near_tight::lemma_walk_cost(h, base, c, n, 0);
}

/// What a walk ends with is no shorter than the match with the node that it looks at.
pub proof fn law_walk_tries(h: Seq<u8>, base: int, next: int, max: int, nice: int, w: Walk)
    requires
        w.depth > 0,
        w.node > next - base - 32768,
        w.best == 3 && w.met.len() <= 1 || (w.met.len() > 0 && w.met.last().0 == w.best),
        bt::agree(h, base + w.node, next, max) > 3,
    ensures
        optimal_model::longest(bt::walked(h, base, next, max, nice, w).1) >= bt::agree(
            h,
            base + w.node,
            next,
            max,
        ),
{
    let pos = base + w.node;
    let len = bt::agree(h, pos, next, max);
    let met = if len > w.best {
        w.met.push((len, next - pos))
    } else {
        w.met
    };
    let best = if len > w.best {
        len
    } else {
        w.best
    };
    let left = bt::left_idx(w.node);
    if len < nice {
        if h[pos + len] < h[next + len] {
            let c = w.child.update(w.lt, w.node as i16);
            lemma_walk_grows(
                h,
                base,
                next,
                max,
                nice,
                Walk {
                    child: c,
                    lt: left + 1,
                    gt: w.gt,
                    node: c[left + 1] as int,
                    depth: (w.depth - 1) as nat,
                    best,
                    met,
                },
            );
        } else {
            let c = w.child.update(w.gt, w.node as i16);
            lemma_walk_grows(
                h,
                base,
                next,
                max,
                nice,
                Walk {
                    child: c,
                    lt: w.lt,
                    gt: left,
                    node: c[left] as int,
                    depth: (w.depth - 1) as nat,
                    best,
                    met,
                },
            );
        }
    }
}

/// A walk goes on: where the node that it looks at agrees for less than a nice length, it
/// looks at its right child next if the node sorts before the position, and else at its left
/// one; what it ends with is no shorter than the match with that child.
pub proof fn law_walk_goes_on(h: Seq<u8>, base: int, next: int, max: int, nice: int, w: Walk)
    requires
        w.depth > 1,
        w.node > next - base - 32768,
        w.best == 3 && w.met.len() <= 1 || (w.met.len() > 0 && w.met.last().0 == w.best),
        bt::agree(h, base + w.node, next, max) < nice,
        w.child.len() == 65536,
        0 <= w.lt < 65536,
        0 <= w.gt < 65536,
        w.lt != bt::left_idx(w.node),
        w.lt != bt::left_idx(w.node) + 1,
        w.gt != bt::left_idx(w.node),
        w.gt != bt::left_idx(w.node) + 1,
    ensures
        ({
            let n = bt::agree(h, base + w.node, next, max);
            let child = if h[base + w.node + n] < h[next + n] {
                w.child[bt::left_idx(w.node) + 1] as int
            } else {
                w.child[bt::left_idx(w.node)] as int
            };
            let len = bt::agree(h, base + child, next, max);
            len > 3 && child > next - base - 32768 ==> optimal_model::longest(
                bt::walked(h, base, next, max, nice, w).1,
            ) >= len
        }),
{
    let pos = base + w.node;
    let n = bt::agree(h, pos, next, max);
    let met = if n > w.best {
        w.met.push((n, next - pos))
    } else {
        w.met
    };
    let best = if n > w.best {
        n
    } else {
        w.best
    };
    let left = bt::left_idx(w.node);
    let before = h[pos + n] < h[next + n];
    let c = if before {
        w.child.update(w.lt, w.node as i16)
    } else {
        w.child.update(w.gt, w.node as i16)
    };
    let v = Walk {
        child: c,
        lt: if before {
            left + 1
        } else {
            w.lt
        },
        gt: if before {
            w.gt
        } else {
            left
        },
        node: c[if before {
            left + 1
        } else {
            left
        }] as int,
        depth: (w.depth - 1) as nat,
        best,
        met,
    };
    assert(v.node == w.child[if before {
        left + 1
    } else {
        left
    }]);
    if v.node > next - base - 32768 && bt::agree(h, base + v.node, next, max) > 3 {
        law_walk_tries(h, base, next, max, nice, v);
    }
}

} // verus!
