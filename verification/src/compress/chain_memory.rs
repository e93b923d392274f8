//! What a search of hash chains remembers, and what it finds.

use crate::compress::block_split;
use crate::compress::chain_model;
use crate::compress::chain_model::{Place, Setup, Work};
use crate::compress::chains::{Lookahead, SearchParams};
use crate::compress::compressor::Compressor;
use crate::compress::incremental;
use crate::compress::items;
use crate::compress::level::InternalStrategy;
use crate::compress::params;
use crate::compress::progress;
use crate::fast_bytes;
use crate::matchfinder;
use crate::matchfinder::hc;
use crate::matchfinder::hc::HcTabs;
use vstd::arithmetic::power2::*;
use vstd::prelude::*;

verus! {

/// The tables have their sizes.
pub open spec fn sized(t: HcTabs) -> bool {
    t.t3.len() == 32768 && t.t4.len() == 65536 && t.link.len() == 32768
}

/// The latest position that was entered under a hash of three bytes.
pub open spec fn latest3(t: HcTabs, k: int) -> int {
    t.base + t.t3[k]
}

/// The latest position that was entered under a hash of four bytes.
pub open spec fn latest4(t: HcTabs, k: int) -> int {
    t.base + t.t4[k]
}

/// Each position from `lo` to `hi` is remembered as long as it lies in the window: the latest
/// position with its hashes is this one or a later one.
pub open spec fn remembers(p: Place, h: Seq<u8>, lo: int, hi: int) -> bool {
    forall|q: int|
        lo <= q < hi && p.next - q < 32768 ==> latest4(p.tabs, #[trigger] hc::hash4_at(h, q)) >= q
            && latest3(p.tabs, hc::hash3_at(h, q)) >= q
}

/// The place has the hashes of its position.
pub open spec fn aimed(p: Place, h: Seq<u8>) -> bool {
    p.hash3 == hc::hash3_at(h, p.next) && p.hash4 == hc::hash4_at(h, p.next)
}

/// The tables and hashes of the place can be used.
pub open spec fn usable(p: Place) -> bool {
    &&& sized(p.tabs)
    &&& 0 <= p.tabs.base <= p.next
    &&& 0 <= p.hash3 < 32768
    &&& 0 <= p.hash4 < 65536
    &&& p.max_len <= 258
}

/// Up to where positions are entered in any case: near the end of the data, those that a
/// match covers are not.
pub open spec fn entered_to(next: int, len: int) -> int {
    if next <= len - 262 {
        next
    } else {
        len - 262
    }
}

/// A hash fits its table.
proof fn lemma_hash_range(h: Seq<u8>, q: int)
    ensures
        0 <= hc::hash3_at(h, q) < 32768,
        0 <= hc::hash4_at(h, q) < 65536,
{
    lemma2_to64();
    let x = fast_bytes::le32(h, q) % 0x100_0000;
    let a = (x * 0x1E35A7BD) % 0x1_0000_0000;
    let y = fast_bytes::le32(h, q);
    let b = (y * 0x1E35A7BD) % 0x1_0000_0000;
    assert(pow2((32 - 15) as nat) == 131072);
    assert(pow2((32 - 16) as nat) == 65536);
    assert(0 <= a / 131072 < 32768);
    assert(0 <= b / 65536 < 65536);
}

/// A position that stays in the window keeps its entry when the window moves on.
pub proof fn lemma_slid(tab: Seq<i16>, base: int, n: nat, k: int)
    requires
        0 <= k < tab.len(),
    ensures
        matchfinder::slid(tab, n).len() == tab.len(),
        base + tab[k] >= base + 32768 * n - 32768 ==> base + 32768 * n + matchfinder::slid(
            tab,
            n,
        )[k] == base + tab[k],
    decreases n,
{
    if n > 0 {
        let t = matchfinder::rebase_tab(tab);
        assert(t[k] == matchfinder::rebased(tab[k]));
        lemma_slid(t, base + 32768, (n - 1) as nat, k);
    }
}

/// Where the window lies after position `p` has been entered.
pub proof fn lemma_window(base: int, p: int)
    requires
        0 <= base <= p,
    ensures
        ({
            let b = base + 32768 * matchfinder::slides(base, p);
            base <= b <= p < b + 32768
        }),
{
}

/// A position that is entered is the latest one with its hashes; for every other hash the
/// latest position stays the same, as long as it lies in the window.
pub proof fn law_entered_is_latest(t: HcTabs, p: int, k3: int, k4: int, j3: int, j4: int)
    requires
        sized(t),
        0 <= t.base <= p,
        0 <= k3 < 32768,
        0 <= k4 < 65536,
        0 <= j3 < 32768,
        0 <= j4 < 65536,
    ensures
        sized(hc::entered(t, p, k3, k4)),
        t.base <= hc::entered(t, p, k3, k4).base <= p < hc::entered(t, p, k3, k4).base + 32768,
        latest3(hc::entered(t, p, k3, k4), k3) == p,
        latest4(hc::entered(t, p, k3, k4), k4) == p,
        j3 != k3 && p - latest3(t, j3) < 32768 ==> latest3(hc::entered(t, p, k3, k4), j3)
            == latest3(t, j3),
        j4 != k4 && p - latest4(t, j4) < 32768 ==> latest4(hc::entered(t, p, k3, k4), j4)
            == latest4(t, j4),
{
    let n = matchfinder::slides(t.base, p);
    lemma_window(t.base, p);
    lemma_slid(t.t3, t.base, n, j3);
    lemma_slid(t.t4, t.base, n, j4);
    lemma_slid(t.link, t.base, n, 0);
}

/// How often the bytes agree from a place on, at least.
pub proof fn lemma_common_least(a: Seq<u8>, b: Seq<u8>, n: int, max: int, len: int)
    requires
        n <= len <= max,
        forall|i: int| n <= i < len ==> a[i] == b[i],
    ensures
        matchfinder::common(a, b, n, max) >= len,
    decreases max - n,
{
    if n < len {
        lemma_common_least(a, b, n + 1, max, len);
    } else {
        matchfinder::lemma_common(a, b, n, max);
    }
}

/// A search along a chain never loses what it has.
proof fn lemma_chain_grows(
    h: Seq<u8>,
    link: Seq<i16>,
    base: int,
    next: int,
    node: int,
    depth: nat,
    best: (int, int),
    max: int,
    nice: int,
)
    ensures
        hc::chain_best(h, link, base, next, node, depth, best, max, nice).0 >= best.0,
    decreases depth,
{
    if depth > 0 && node > next - base - 32768 {
        let len = matchfinder::probe(h, base, next, node, max);
        let better = if len > best.0 {
            (len, next - base - node)
        } else {
            best
        };
        lemma_chain_grows(
            h,
            link,
            base,
            next,
            link[node % 32768] as int,
            (depth - 1) as nat,
            better,
            max,
            nice,
        );
    }
}

/// A search finds a match that is at least as long as the one with the latest position that
/// has the same hash: where the bytes there agree with those at the place for `len` bytes,
/// four or more, and that is more than is to beat.
pub proof fn law_search_finds_latest(
    p: Place,
    h: Seq<u8>,
    best_len: int,
    depth: int,
    good: int,
    len: int,
)
    requires
        usable(p),
        aimed(p, h),
        p.next + 5 <= h.len(),
        5 <= p.max_len,
        depth >= 1,
        0 <= latest4(p.tabs, p.hash4) < p.next,
        p.next - latest4(p.tabs, p.hash4) < 32768,
        p.next - latest3(p.tabs, p.hash3) < 32768,
        4 <= len <= chain_model::within(p, h).max_len,
        items::is_match(h, p.next, len, p.next - latest4(p.tabs, p.hash4)),
        0 <= best_len < len,
        best_len < 4 || best_len < chain_model::within(p, h).nice_len,
    ensures
        chain_model::found_at(p, h, best_len, depth, good).0 >= len,
{
    let q = chain_model::within(p, h);
    let t = hc::entered(p.tabs, p.next, p.hash3, p.hash4);
    let n = matchfinder::slides(p.tabs.base, p.next);
    let base = t.base;
    lemma_window(p.tabs.base, p.next);
    lemma_slid(p.tabs.t3, p.tabs.base, n, p.hash3);
    lemma_slid(p.tabs.t4, p.tabs.base, n, p.hash4);
    let node3 = matchfinder::slid(p.tabs.t3, n)[p.hash3] as int;
    let node4 = matchfinder::slid(p.tabs.t4, n)[p.hash4] as int;
    let at = latest4(p.tabs, p.hash4);
    assert(base + node4 == at);
    assert(base + node3 == latest3(p.tabs, p.hash3));
    let d = hc::depth_of(depth, best_len, good);
    assert(d >= 1);
    let a = h.skip(p.next);
    let b = h.skip(at);
    assert forall|i: int| 0 <= i < len implies a[i] == b[i] by {
        assert(h[p.next + i] == h[p.next + i - (p.next - at)]);
    }
    assert(h[p.next] == h[at] && h[p.next + 1] == h[at + 1] && h[p.next + 2] == h[at + 2]
        && h[p.next + 3] == h[at + 3]) by {
        assert(a[0] == b[0] && a[1] == b[1] && a[2] == b[2] && a[3] == b[3]);
    }
    fast_bytes::lemma_le32_eq(h, at, h, p.next);
    lemma_common_least(a, b, 4, q.max_len, len);
    let best = if best_len < 3 && fast_bytes::le32(h, base + node3) % 0x100_0000
        == fast_bytes::le32(h, p.next) % 0x100_0000 {
        (3int, p.next - base - node3)
    } else {
        (best_len, 0int)
    };
    let l = matchfinder::probe(h, base, p.next, node4, q.max_len);
    assert(l >= len);
    lemma_chain_grows(
        h,
        t.link,
        base,
        p.next,
        t.link[node4 % 32768] as int,
        (d - 1) as nat,
        (l, p.next - base - node4),
        q.max_len,
        q.nice_len,
    );
}

/// The place `b` comes after the place `a`, and all between has been entered: what was
/// remembered still is, and where five bytes are left, so is all that was passed; at the end
/// of the data it is but for the last bytes. The position that `a` itself is at counts only
/// if `a` has its hashes.
pub open spec fn follows(a: Place, b: Place, h: Seq<u8>, lo: int) -> bool {
    &&& usable(b)
    &&& a.next <= b.next
    &&& forall|hi: int| remembers(a, h, lo, hi) && hi <= a.next ==> #[trigger] remembers(b, h, lo, hi)
    &&& (aimed(a, h) || (lo == a.next + 1 && a.next < b.next)) && remembers(a, h, lo, a.next)
        && b.next + 5 <= h.len() ==> aimed(b, h) && remembers(b, h, lo, b.next)
    &&& (aimed(a, h) || (lo == a.next + 1 && a.next < b.next)) && remembers(a, h, lo, a.next)
        ==> remembers(b, h, lo, entered_to(b.next, h.len() as int))
}

proof fn lemma_follows_trans(a: Place, b: Place, c: Place, h: Seq<u8>, lo: int)
    requires
        follows(a, b, h, lo),
        follows(b, c, h, lo),
    ensures
        follows(a, c, h, lo),
{
    assert forall|hi: int| remembers(a, h, lo, hi) && hi <= a.next implies #[trigger] remembers(
        c,
        h,
        lo,
        hi,
    ) by {
        assert(remembers(b, h, lo, hi));
    }
    let bar = h.len() - 262;
    if (aimed(a, h) || (lo == a.next + 1 && a.next < c.next)) && remembers(a, h, lo, a.next) {
        if a.next == b.next && !aimed(a, h) {
            assert(remembers(b, h, lo, b.next));
        }
        if b.next > bar {
            if a.next < b.next || aimed(a, h) {
                assert(remembers(b, h, lo, bar));
                assert(remembers(c, h, lo, bar));
            }
        }
    }
}

/// Entering a position forgets no other one.
#[verifier::spinoff_prover]
proof fn lemma_kept(a: Place, b: Place, h: Seq<u8>, q: int)
    requires
        usable(a),
        b.tabs == hc::entered(a.tabs, a.next, a.hash3, a.hash4),
        0 <= q <= a.next,
        a.next + 1 - q < 32768,
        latest4(a.tabs, hc::hash4_at(h, q)) >= q || hc::hash4_at(h, q) == a.hash4,
        latest3(a.tabs, hc::hash3_at(h, q)) >= q || hc::hash3_at(h, q) == a.hash3,
    ensures
        latest4(b.tabs, hc::hash4_at(h, q)) >= q,
        latest3(b.tabs, hc::hash3_at(h, q)) >= q,
{
    lemma_hash_range(h, q);
    law_entered_is_latest(
        a.tabs,
        a.next,
        a.hash3,
        a.hash4,
        hc::hash3_at(h, q),
        hc::hash4_at(h, q),
    );
}

/// Entering a position forgets nothing.
proof fn lemma_entered(a: Place, b: Place, h: Seq<u8>, lo: int, hi: int)
    requires
        usable(a),
        0 <= lo,
        b.tabs == hc::entered(a.tabs, a.next, a.hash3, a.hash4),
        b.next == a.next + 1,
        hi <= a.next,
        remembers(a, h, lo, hi),
    ensures
        remembers(b, h, lo, hi),
        aimed(a, h) && hi == a.next ==> remembers(b, h, lo, a.next + 1),
        sized(b.tabs),
        0 <= b.tabs.base <= a.next,
{
    law_entered_is_latest(a.tabs, a.next, a.hash3, a.hash4, 0, 0);
    let e = if aimed(a, h) && hi == a.next {
        hi + 1
    } else {
        hi
    };
    assert(remembers(b, h, lo, e)) by {
        assert forall|q: int| lo <= q < e && b.next - q < 32768 implies latest4(
            b.tabs,
            #[trigger] hc::hash4_at(h, q),
        ) >= q && latest3(b.tabs, hc::hash3_at(h, q)) >= q by {
            lemma_kept(a, b, h, q);
        }
    }
}

/// Fewer positions are remembered too.
proof fn lemma_fewer(p: Place, h: Seq<u8>, lo: int, hi: int, e: int)
    requires
        remembers(p, h, lo, hi),
        e <= hi,
    ensures
        remembers(p, h, lo, e),
{
}

/// After a search.
#[verifier::spinoff_prover]
#[verifier::rlimit(40)]
proof fn lemma_find_follows(p: Place, h: Seq<u8>, lo: int)
    requires
        usable(p),
        0 <= lo,
    ensures
        follows(p, chain_model::after_find(p, h), h, lo),
{
    let b = chain_model::after_find(p, h);
    let e = entered_to(b.next, h.len() as int);
    assert(usable(b)) by {
        lemma_hash_range(h, p.next + 1);
        law_entered_is_latest(p.tabs, p.next, p.hash3, p.hash4, 0, 0);
    }
    assert(forall|hi: int|
        remembers(p, h, lo, hi) && hi <= p.next ==> #[trigger] remembers(b, h, lo, hi)) by {
        assert forall|hi: int| remembers(p, h, lo, hi) && hi <= p.next implies #[trigger] remembers(
            b,
            h,
            lo,
            hi,
        ) by {
            lemma_entered(p, b, h, lo, hi);
        }
    }
    if (aimed(p, h) || lo == p.next + 1) && remembers(p, h, lo, p.next) {
        assert(remembers(b, h, lo, b.next)) by {
            if aimed(p, h) {
                lemma_entered(p, b, h, lo, p.next);
            }
        }
        lemma_fewer(b, h, lo, b.next, e);
    }
}

/// What a place remembers depends on its tables and its position only.
proof fn lemma_alike(a: Place, b: Place, c: Place, h: Seq<u8>, lo: int)
    requires
        follows(a, b, h, lo),
        c.tabs == b.tabs,
        c.next == b.next,
        c.hash3 == b.hash3,
        c.hash4 == b.hash4,
        c.max_len <= 258,
    ensures
        follows(a, c, h, lo),
{
    assert forall|hi: int| remembers(b, h, lo, hi) implies #[trigger] remembers(c, h, lo, hi) by {}
    assert forall|hi: int| remembers(a, h, lo, hi) && hi <= a.next implies #[trigger] remembers(
        c,
        h,
        lo,
        hi,
    ) by {
        assert(remembers(b, h, lo, hi));
    }
}

/// After positions have been entered without a search.
proof fn lemma_run_follows(p: Place, b: Place, h: Seq<u8>, lo: int, n: nat)
    requires
        usable(p),
        0 <= lo,
        n > 0,
        b.tabs == hc::run_entered(p.tabs, h, p.next, n, p.hash3, p.hash4),
        b.next == p.next + n,
        b.hash3 == hc::hash3_at(h, p.next + n),
        b.hash4 == hc::hash4_at(h, p.next + n),
        b.next + 5 <= h.len(),
        b.max_len <= 258,
    ensures
        follows(p, b, h, lo),
    decreases n,
{
    let f = chain_model::after_find(p, h);
    lemma_find_follows(p, h, lo);
    reveal_with_fuel(hc::run_entered, 2);
    if n == 1 {
        lemma_alike(p, f, b, h, lo);
    } else {
        lemma_run_follows(f, b, h, lo, (n - 1) as nat);
        lemma_follows_trans(p, f, b, h, lo);
    }
}

/// After positions have been skipped.
proof fn lemma_skip_follows(p: Place, h: Seq<u8>, lo: int, count: int)
    requires
        usable(p),
        0 <= lo,
        0 <= count <= 257,
    ensures
        follows(p, chain_model::after_skip(p, h, count), h, lo),
{
    let b = chain_model::after_skip(p, h, count);
    if count <= 0 || p.next + count + 5 > h.len() {
        assert forall|hi: int| remembers(p, h, lo, hi) && hi <= p.next implies #[trigger] remembers(
            b,
            h,
            lo,
            hi,
        ) by {
            assert forall|q: int| lo <= q < hi && b.next - q < 32768 implies latest4(
                b.tabs,
                #[trigger] hc::hash4_at(h, q),
            ) >= q && latest3(b.tabs, hc::hash3_at(h, q)) >= q by {
                assert(p.next - q < 32768);
            }
        }
        if count > 0 && remembers(p, h, lo, p.next) {
            assert(remembers(p, h, lo, h.len() - 262));
        }
        if count == 0 && remembers(p, h, lo, p.next) {
            assert(remembers(b, h, lo, entered_to(b.next, h.len() as int)));
        }
    } else {
        lemma_run_follows(p, b, h, lo, count as nat);
    }
}

/// A search along a chain finds nothing that is too long.
proof fn lemma_chain_most(
    h: Seq<u8>,
    link: Seq<i16>,
    base: int,
    next: int,
    node: int,
    depth: nat,
    best: (int, int),
    max: int,
    nice: int,
)
    requires
        5 <= max <= 258,
        best.0 <= 258,
    ensures
        hc::chain_best(h, link, base, next, node, depth, best, max, nice).0 <= 258,
    decreases depth,
{
    if depth > 0 && node > next - base - 32768 {
        let len = matchfinder::probe(h, base, next, node, max);
        matchfinder::lemma_common(h.skip(next), h.skip(base + node), 4, max);
        let better = if len > best.0 {
            (len, next - base - node)
        } else {
            best
        };
        lemma_chain_most(
            h,
            link,
            base,
            next,
            link[node % 32768] as int,
            (depth - 1) as nat,
            better,
            max,
            nice,
        );
    }
}

/// A match that is found has no more than 258 bytes.
proof fn lemma_found_most(p: Place, h: Seq<u8>, best_len: int, depth: int, good: int)
    requires
        usable(p),
        best_len <= 258,
    ensures
        chain_model::found_at(p, h, best_len, depth, good).0 <= 258,
{
    let q = chain_model::within(p, h);
    let t = hc::entered(p.tabs, p.next, p.hash3, p.hash4);
    let n = matchfinder::slides(p.tabs.base, p.next);
    let node3 = matchfinder::slid(p.tabs.t3, n)[p.hash3] as int;
    let node4 = matchfinder::slid(p.tabs.t4, n)[p.hash4] as int;
    let d = hc::depth_of(depth, best_len, good);
    if q.max_len >= 5 {
        let three = (3int, p.next - t.base - node3);
        lemma_chain_most(h, t.link, t.base, p.next, node4, d, (best_len, 0), q.max_len, q.nice_len);
        lemma_chain_most(h, t.link, t.base, p.next, node4, d, three, q.max_len, q.nice_len);
    }
}

/// After a match with a look at what comes next.
proof fn lemma_lazily_follows(
    w: Work,
    h: Seq<u8>,
    item: (int, int),
    sp: SearchParams,
    lazy2: bool,
    lo: int,
)
    requires
        usable(w.place),
        0 <= lo,
        3 <= item.0 <= 258,
    ensures
        follows(w.place, chain_model::lazily(w, h, item, sp, lazy2).place, h, lo),
    decreases
            (if w.place.next < h.len() {
                h.len() - w.place.next
            } else {
                0
            }),
{
    if item.0 >= w.place.nice_len || item.0 >= sp.max_lazy || w.place.next >= h.len() {
        lemma_skip_follows(w.place, h, lo, item.0 - 1);
    } else {
        let start = w.place.next - 1;
        let p1 = chain_model::after_find(w.place, h);
        let next = chain_model::found_at(
            w.place,
            h,
            item.0 - 1,
            sp.max_search_depth as int / 2,
            sp.good_match as int,
        );
        let p2 = chain_model::after_find(p1, h);
        let next2 = chain_model::found_at(
            p1,
            h,
            item.0 - 1,
            sp.max_search_depth as int / 4,
            sp.good_match as int,
        );
        lemma_found_most(
            w.place,
            h,
            item.0 - 1,
            sp.max_search_depth as int / 2,
            sp.good_match as int,
        );
        lemma_find_follows(w.place, h, lo);
        lemma_found_most(
            p1,
            h,
            item.0 - 1,
            sp.max_search_depth as int / 4,
            sp.good_match as int,
        );
        lemma_find_follows(p1, h, lo);
        lemma_follows_trans(w.place, p1, p2, h, lo);
        if chain_model::better(item, next, 2) {
            let v = Work { place: p1, ..chain_model::with_literal(w, h[start]) };
            lemma_lazily_follows(v, h, next, sp, lazy2, lo);
            lemma_follows_trans(
                w.place,
                p1,
                chain_model::lazily(v, h, next, sp, lazy2).place,
                h,
                lo,
            );
        } else if !lazy2 {
            lemma_skip_follows(p1, h, lo, item.0 - 2);
            lemma_follows_trans(
                w.place,
                p1,
                chain_model::after_skip(p1, h, item.0 - 2),
                h,
                lo,
            );
        } else if chain_model::better(item, next2, 6) {
            let v = Work {
                place: p2,
                ..chain_model::with_literal(
                    chain_model::with_literal(w, h[start]),
                    h[start + 1],
                )
            };
            lemma_lazily_follows(v, h, next2, sp, lazy2, lo);
            lemma_follows_trans(
                w.place,
                p2,
                chain_model::lazily(v, h, next2, sp, lazy2).place,
                h,
                lo,
            );
        } else {
            lemma_skip_follows(p2, h, lo, item.0 - 3);
            lemma_follows_trans(
                w.place,
                p2,
                chain_model::after_skip(p2, h, item.0 - 3),
                h,
                lo,
            );
        }
    }
}

/// After a step of a parse.
proof fn lemma_step_follows(
    w: Work,
    h: Seq<u8>,
    sp: SearchParams,
    look: Lookahead,
    min_len: int,
    lo: int,
)
    requires
        usable(w.place),
        0 <= lo,
        3 <= min_len <= 9,
    ensures
        follows(w.place, chain_model::step(w, h, sp, look, min_len).place, h, lo),
{
    reveal(chain_model::step);
    let item = chain_model::found_at(
        w.place,
        h,
        min_len - 1,
        sp.max_search_depth as int,
        sp.good_match as int,
    );
    let place = chain_model::after_find(w.place, h);
    lemma_found_most(
        w.place,
        h,
        min_len - 1,
        sp.max_search_depth as int,
        sp.good_match as int,
    );
    lemma_find_follows(w.place, h, lo);
    if item.0 >= min_len {
        lemma_skip_follows(place, h, lo, item.0 - 1);
        lemma_follows_trans(
            w.place,
            place,
            chain_model::after_skip(place, h, item.0 - 1),
            h,
            lo,
        );
        let v = Work { place, ..w };
        lemma_lazily_follows(v, h, item, sp, look == Lookahead::Lazy2, lo);
        lemma_follows_trans(
            w.place,
            place,
            chain_model::lazily(v, h, item, sp, look == Lookahead::Lazy2).place,
            h,
            lo,
        );
    }
}

/// After a parse of a block, or a part of it.
proof fn lemma_work_follows(
    w: Work,
    h: Seq<u8>,
    begin: int,
    end: int,
    sp: SearchParams,
    look: Lookahead,
    split: bool,
    min_len: int,
    recalc: int,
    lo: int,
)
    requires
        usable(w.place),
        0 <= lo,
        3 <= min_len <= 9,
    ensures
        follows(
            w.place,
            chain_model::run(w, h, begin, end, sp, look, split, min_len, recalc).place,
            h,
            lo,
        ),
    decreases
            (if w.place.next < end {
                end - w.place.next
            } else {
                0
            }),
{
    let anew = look != Lookahead::Greedy && split && w.place.next >= recalc;
    let min_len1 = if anew {
        chain_model::common_min_len(h, begin, w.its, sp.max_search_depth as int)
    } else {
        min_len
    };
    let recalc1 = if anew {
        recalc + chain_model::lesser(h.len() - recalc, w.place.next - begin)
    } else {
        recalc
    };
    let v = chain_model::step(w, h, sp, look, min_len1);
    lemma_step_follows(w, h, sp, look, min_len1, lo);
    let ready = split && block_split::is_ready(v.seen, begin, v.place.next, h.len() as int);
    if v.place.next >= end || v.place.next <= w.place.next || v.matches >= 50000 {
    } else if ready && block_split::differs(v.seen, v.place.next - begin) {
    } else {
        let seen = if ready {
            block_split::merged(v.seen)
        } else {
            v.seen
        };
        let x = Work { seen, ..v };
        lemma_work_follows(x, h, begin, end, sp, look, split, min_len1, recalc1, lo);
        lemma_follows_trans(
            w.place,
            x.place,
            chain_model::run(x, h, begin, end, sp, look, split, min_len1, recalc1).place,
            h,
            lo,
        );
    }
}

/// A run of blocks enters all that it passes: where five bytes are left behind the `k`-th
/// block, the tables remember each position since the beginning, but for the first one if
/// its hashes were not there, and what they remembered before they still do.
pub proof fn law_blocks_remember(c: Setup, h: Seq<u8>, k: nat, lo: int)
    requires
        usable(c.place),
        0 <= lo,
    ensures
        follows(c.place, chain_model::after_blocks(c, h, k).place, h, lo),
    decreases k,
{
    if k == 0 {
        assert forall|hi: int| remembers(c.place, h, lo, hi) implies #[trigger] remembers(
            chain_model::after_blocks(c, h, 0).place,
            h,
            lo,
            hi,
        ) by {}
    } else {
        law_blocks_remember(c, h, (k - 1) as nat, lo);
        let p = chain_model::after_blocks(c, h, (k - 1) as nat).place;
        let end = progress::max_block_end(p.next, h.len() as int, c.soft_max_len);
        let w = Work {
            place: p,
            its: Seq::empty(),
            matches: 0,
            seen: block_split::nothing(),
        };
        lemma_work_follows(
            w,
            h,
            p.next,
            end,
            c.sp,
            c.look,
            c.split,
            params::initial_min_len(h, p.next, end, c.sp.max_search_depth as int),
            p.next + chain_model::lesser(h.len() - p.next, 10000),
            lo,
        );
        lemma_follows_trans(c.place, p, chain_model::after_blocks(c, h, k).place, h, lo);
    }
}

/// The strategies whose incremental compression searches hash chains.
pub open spec fn chained(s: InternalStrategy) -> bool {
    s == InternalStrategy::Greedy || s == InternalStrategy::Lazy || s == InternalStrategy::Lazy2
}

/// Where the next piece begins.
pub open spec fn piece_start(c: Compressor) -> Place {
    incremental::hc_setup(c, incremental::incremental_look(c.level.strategy)).place
}

/// What a compressor begins a piece with can be used.
proof fn lemma_start_usable(c: Compressor)
    requires
        c.wf(),
        chained(c.level.strategy),
    ensures
        usable(piece_start(c)),
        piece_start(c).next == c.incremental_pos,
        !(piece_start(c).next > 0) || forall|k: int|
            0 <= k < 65536 ==> #[trigger] latest4(piece_start(c).tabs, k) < c.incremental_pos,
{
    let p = piece_start(c);
    if c.incremental_pos > 0 {
        let mf = c.hc_mf->0;
        assert(mf.wf(c.incremental_base_offset as int, c.incremental_pos as int));
        assert forall|k: int| 0 <= k < 65536 implies #[trigger] latest4(p.tabs, k)
            < c.incremental_pos by {
            assert(mf.hash4_tab@[k] == matchfinder::MATCHFINDER_INITVAL || 0
                <= c.incremental_base_offset + mf.hash4_tab@[k] < c.incremental_pos);
        }
    }
}

/// Two calls go on from one another: the next piece begins where the piece before it ended,
/// with the tables that the run over that piece ended with.
pub proof fn law_pieces_join(
    c: Compressor,
    d: Compressor,
    h: Seq<u8>,
    b0: Seq<bool>,
    b1: Seq<bool>,
    last: bool,
) -> (p: Place)
    requires
        chained(c.level.strategy),
        d.level == c.level,
        incremental::moved_on(c, d, h, b0, b1, last),
        d.incremental_pos == h.len(),
        h.len() > 0,
    ensures
        chain_model::written_to(
            incremental::hc_setup(c, incremental::incremental_look(c.level.strategy)),
            h,
            b0,
            b1,
            last,
            p,
        ),
        p.next == h.len(),
        piece_start(d).next == p.next,
        piece_start(d).tabs == p.tabs,
{
    let p = choose|p: Place|
        {
            &&& #[trigger] chain_model::written_to(
                incremental::hc_setup(c, incremental::incremental_look(c.level.strategy)),
                h,
                b0,
                b1,
                last,
                p,
            )
            &&& incremental::hc_end(d, h, p)
        };
    p
}

/// A hash depends on four bytes only.
proof fn lemma_same_hash(h: Seq<u8>, g: Seq<u8>, p: int, q: int)
    requires
        0 <= p,
        0 <= q,
        p + 4 <= h.len(),
        q + 4 <= g.len(),
        h.subrange(p, p + 4) == g.subrange(q, q + 4),
    ensures
        hc::hash3_at(h, p) == hc::hash3_at(g, q),
        hc::hash4_at(h, p) == hc::hash4_at(g, q),
{
    let a = h.subrange(p, p + 4);
    let b = g.subrange(q, q + 4);
    assert(a[0] == b[0] && a[1] == b[1] && a[2] == b[2] && a[3] == b[3]);
}

/// The next piece begins with tables that remember the piece before it, each position from
/// its second one on, but for the last bytes, and all that was remembered before.
pub proof fn law_pieces_remembered(
    c: Compressor,
    d: Compressor,
    h: Seq<u8>,
    b0: Seq<bool>,
    b1: Seq<bool>,
    last: bool,
    lo: int,
)
    requires
        c.wf(),
        chained(c.level.strategy),
        d.level == c.level,
        incremental::moved_on(c, d, h, b0, b1, last),
        d.incremental_pos == h.len(),
        c.incremental_pos < h.len(),
        0 <= lo,
    ensures
        remembers(piece_start(d), h, c.incremental_pos + 1, h.len() - 262),
        forall|hi: int|
            #![trigger remembers(piece_start(d), h, lo, hi)]
            remembers(piece_start(c), h, lo, hi) && hi <= c.incremental_pos ==> remembers(
                piece_start(d),
                h,
                lo,
                hi,
            ),
{
    let setup = incremental::hc_setup(c, incremental::incremental_look(c.level.strategy));
    let p = law_pieces_join(c, d, h, b0, b1, last);
    lemma_start_usable(c);
    reveal(chain_model::written_to);
    let k = choose|k: nat|
        {
            &&& #[trigger] chain_model::blocks_written(setup, h, b0, b1, last, k)
            &&& chain_model::after_blocks(setup, h, k).place == p
        };
    let one = c.incremental_pos + 1;
    law_blocks_remember(setup, h, k, one);
    law_blocks_remember(setup, h, k, lo);
    assert(remembers(setup.place, h, one, setup.place.next));
    assert(remembers(p, h, one, h.len() - 262));
    assert(remembers(piece_start(d), h, one, h.len() - 262));
    assert forall|hi: int|
        #![trigger remembers(piece_start(d), h, lo, hi)]
        remembers(piece_start(c), h, lo, hi) && hi <= c.incremental_pos implies remembers(
        piece_start(d),
        h,
        lo,
        hi,
    ) by {
        assert(remembers(p, h, lo, hi));
    }
}

/// What comes again in the next piece is found there: where its second position begins with
/// the same four bytes as position `q` of the piece before it, the latest position with their
/// hash is `q` or a later one, and where the bytes there agree for `len` bytes, the search
/// finds a match that is as long.
pub proof fn law_repetition_found(
    c: Compressor,
    d: Compressor,
    h: Seq<u8>,
    g: Seq<u8>,
    b0: Seq<bool>,
    b1: Seq<bool>,
    last: bool,
    q: int,
    len: int,
    best_len: int,
    depth: int,
    good: int,
)
    requires
        c.wf(),
        d.wf(),
        chained(c.level.strategy),
        d.level == c.level,
        incremental::moved_on(c, d, h, b0, b1, last),
        d.incremental_pos == h.len(),
        c.incremental_pos < q < h.len() - 262,
        h.len() + 1 - q < 32768,
        h.len() + 1 + 5 <= g.len(),
        g.take(h.len() as int) == h,
        g.subrange((h.len() + 1) as int, (h.len() + 5) as int) == h.subrange(q, q + 4),
        0 <= best_len < 4,
        depth >= 1,
    ensures
        ({
            let p = chain_model::after_find(piece_start(d), g);
            let at = latest4(p.tabs, p.hash4);
            &&& p.next == h.len() + 1
            &&& q <= at <= h.len()
            &&& 4 <= len <= 258 && p.next + len <= g.len() && items::is_match(
                g,
                p.next,
                len,
                p.next - at,
            ) ==> chain_model::found_at(p, g, best_len, depth, good).0 >= len
        }),
{
    let n = h.len() as int;
    let s = piece_start(d);
    let p = chain_model::after_find(s, g);
    law_pieces_remembered(c, d, h, b0, b1, last, 0);
    lemma_start_usable(d);
    let lo = c.incremental_pos + 1;
    assert(remembers(s, g, lo, n - 262)) by {
        assert forall|x: int| lo <= x < n - 262 && s.next - x < 32768 implies latest4(
            s.tabs,
            #[trigger] hc::hash4_at(g, x),
        ) >= x && latest3(s.tabs, hc::hash3_at(g, x)) >= x by {
            assert(h.subrange(x, x + 4) =~= g.subrange(x, x + 4));
            lemma_same_hash(h, g, x, x);
            assert(latest4(s.tabs, hc::hash4_at(h, x)) >= x);
        }
    }
    lemma_find_follows(s, g, lo);
    assert(remembers(p, g, lo, n - 262));
    lemma_same_hash(h, g, q, n + 1);
    assert(h.subrange(q, q + 4) =~= g.subrange(q, q + 4));
    lemma_same_hash(h, g, q, q);
    assert(latest4(p.tabs, hc::hash4_at(g, q)) >= q);
    let at = latest4(p.tabs, p.hash4);
    assert(at >= q);
    assert(at <= n) by {
        lemma_hash_range(g, n + 1);
        law_entered_is_latest(s.tabs, n, s.hash3, s.hash4, 0, p.hash4);
        lemma_window(s.tabs.base, n);
        lemma_slid_most(s.tabs.t4, s.tabs.base, matchfinder::slides(s.tabs.base, n), p.hash4, n);
    }
    if 4 <= len <= 258 && p.next + len <= g.len() && items::is_match(g, p.next, len, p.next - at) {
        law_search_finds_latest(p, g, best_len, depth, good, len);
    }
}

/// When the window moves on, no entry comes to stand for a position that is not before.
proof fn lemma_slid_most(tab: Seq<i16>, base: int, n: nat, k: int, next: int)
    requires
        0 <= k < tab.len(),
        base + tab[k] < next,
        base + 32768 * n <= next,
    ensures
        base + 32768 * n + matchfinder::slid(tab, n)[k] < next,
    decreases n,
{
    if n > 0 {
        let t = matchfinder::rebase_tab(tab);
        assert(t[k] == matchfinder::rebased(tab[k]));
        lemma_slid_most(t, base + 32768, (n - 1) as nat, k, next);
    }
}

/// Some literals and a match.
pub open spec fn then_match(its: Seq<(int, int)>, k: nat, m: (int, int)) -> Seq<(int, int)> {
    its + Seq::new(k, |i: int| (1int, 0int)) + seq![m]
}

/// One more literal before.
proof fn lemma_then_match(its: Seq<(int, int)>, k: nat, m: (int, int))
    ensures
        then_match(its.push((1, 0)), k, m) == then_match(its, k + 1, m),
{
    assert(then_match(its.push((1, 0)), k, m) =~= then_match(its, k + 1, m));
}

/// When looking ahead, a match that was found is taken, or one that begins a little later and
/// is no shorter, behind literals.
proof fn lemma_lazily_takes(
    w: Work,
    h: Seq<u8>,
    item: (int, int),
    sp: SearchParams,
    lazy2: bool,
) -> (r: (nat, (int, int)))
    requires
        item.0 >= 3,
    ensures
        ({
            let v = chain_model::lazily(w, h, item, sp, lazy2);
            &&& v.its == then_match(w.its, r.0, r.1)
            &&& r.1.0 >= item.0
            &&& v.place.next == w.place.next - 1 + r.0 + r.1.0
            &&& v.matches == w.matches + 1
        }),
    decreases
            (if w.place.next < h.len() {
                h.len() - w.place.next
            } else {
                0
            }),
{
    assert(w.its.push(item) =~= then_match(w.its, 0, item));
    if item.0 >= w.place.nice_len || item.0 >= sp.max_lazy || w.place.next >= h.len() {
        (0, item)
    } else {
        let start = w.place.next - 1;
        let p1 = chain_model::after_find(w.place, h);
        let next = chain_model::found_at(
            w.place,
            h,
            item.0 - 1,
            sp.max_search_depth as int / 2,
            sp.good_match as int,
        );
        let p2 = chain_model::after_find(p1, h);
        let next2 = chain_model::found_at(
            p1,
            h,
            item.0 - 1,
            sp.max_search_depth as int / 4,
            sp.good_match as int,
        );
        if chain_model::better(item, next, 2) {
            let v = Work { place: p1, ..chain_model::with_literal(w, h[start]) };
            let r = lemma_lazily_takes(v, h, next, sp, lazy2);
            lemma_then_match(w.its, r.0, r.1);
            (r.0 + 1, r.1)
        } else if !lazy2 {
            (0, item)
        } else if chain_model::better(item, next2, 6) {
            let u = chain_model::with_literal(w, h[start]);
            let v = Work { place: p2, ..chain_model::with_literal(u, h[start + 1]) };
            let r = lemma_lazily_takes(v, h, next2, sp, lazy2);
            lemma_then_match(u.its, r.0, r.1);
            lemma_then_match(w.its, r.0 + 1, r.1);
            (r.0 + 2, r.1)
        } else {
            (0, item)
        }
    }
}

/// A match that the search finds is not left unused, if it is long enough and, with three
/// bytes only, not far away: it is taken, or behind some literals a match that is no shorter.
/// Without a look ahead it is taken at once.
pub proof fn law_match_is_taken(
    w: Work,
    h: Seq<u8>,
    sp: SearchParams,
    look: Lookahead,
    min_len: int,
) -> (r: (nat, (int, int)))
    requires
        3 <= min_len,
        chain_model::found_at(
            w.place,
            h,
            min_len - 1,
            sp.max_search_depth as int,
            sp.good_match as int,
        ).0 >= min_len,
        chain_model::found_at(
            w.place,
            h,
            min_len - 1,
            sp.max_search_depth as int,
            sp.good_match as int,
        ).0 > 3 || chain_model::found_at(
            w.place,
            h,
            min_len - 1,
            sp.max_search_depth as int,
            sp.good_match as int,
        ).1 <= 4096,
    ensures
        ({
            let v = chain_model::step(w, h, sp, look, min_len);
            let found = chain_model::found_at(
                w.place,
                h,
                min_len - 1,
                sp.max_search_depth as int,
                sp.good_match as int,
            );
            &&& v.its == then_match(w.its, r.0, r.1)
            &&& r.1.0 >= found.0
            &&& v.place.next == w.place.next + r.0 + r.1.0
            &&& look == Lookahead::Greedy ==> r == (0nat, found)
        }),
{
    reveal(chain_model::step);
    let item = chain_model::found_at(
        w.place,
        h,
        min_len - 1,
        sp.max_search_depth as int,
        sp.good_match as int,
    );
    let place = chain_model::after_find(w.place, h);
    if look == Lookahead::Greedy {
        assert(w.its.push(item) =~= then_match(w.its, 0, item));
        (0, item)
    } else {
        lemma_lazily_takes(Work { place, ..w }, h, item, sp, look == Lookahead::Lazy2)
    }
}

/// Where the search finds nothing that is long enough, a literal is taken.
pub proof fn law_else_literal(
    w: Work,
    h: Seq<u8>,
    sp: SearchParams,
    look: Lookahead,
    min_len: int,
)
    requires
        chain_model::found_at(
            w.place,
            h,
            min_len - 1,
            sp.max_search_depth as int,
            sp.good_match as int,
        ).0 < min_len,
    ensures
        chain_model::step(w, h, sp, look, min_len).its == w.its.push((1, 0)),
        chain_model::step(w, h, sp, look, min_len).place.next == w.place.next + 1,
{
    reveal(chain_model::step);
}

/// A run that begins in the middle of the data remembers the window before it, each position
/// but the first.
pub proof fn law_window_remembered(h: Seq<u8>, start: int, sp: SearchParams, look: Lookahead)
    requires
        0 < start,
        start + 5 <= h.len(),
    ensures
        ({
            let p = chain_model::setup_at(h, start, sp, look).place;
            &&& p.next == start
            &&& usable(p)
            &&& aimed(p, h)
            &&& remembers(
                p,
                h,
                if start <= 32768 {
                    1
                } else {
                    start - 32767
                },
                start,
            )
        }),
{
    let dict = progress::dictionary_at(start);
    let f = chain_model::fresh_place(dict, sp.nice_match_length as int);
    let p = chain_model::setup_at(h, start, sp, look).place;
    let lo = dict + 1;
    lemma_run_follows(f, p, h, lo, (start - dict) as nat);
    assert(remembers(f, h, lo, f.next));
}

/// The least length of a match has three to nine bytes. It is no larger where more different
/// literals are used, and three where there are many; it is no smaller where searches go
/// deeper.
pub proof fn law_min_len(used: int, more: int, depth: int, deeper: int)
    requires
        used <= more,
        depth <= deeper,
    ensures
        3 <= params::min_match_len(used, depth) <= 9,
        params::min_match_len(more, depth) <= params::min_match_len(used, depth),
        params::min_match_len(used, depth) <= params::min_match_len(used, deeper),
        more >= 80 ==> params::min_match_len(more, depth) == 3,
{
}

/// The entry that stands `k` places behind `node` on its chain.
pub open spec fn along(link: Seq<i16>, node: int, k: nat) -> int
    decreases k,
{
    if k == 0 {
        node
    } else {
        along(link, link[node % 32768] as int, (k - 1) as nat)
    }
}

/// A search looks at as many positions of the chain as it may: what it finds is no shorter
/// than the match with any of the first `depth`, unless it is good enough.
pub proof fn law_search_goes_deep(
    h: Seq<u8>,
    link: Seq<i16>,
    base: int,
    next: int,
    node: int,
    depth: nat,
    best: (int, int),
    max: int,
    nice: int,
    k: nat,
)
    requires
        k < depth,
        forall|j: nat| j <= k ==> #[trigger] along(link, node, j) > next - base - 32768,
    ensures
        ({
            let r = hc::chain_best(h, link, base, next, node, depth, best, max, nice).0;
            r >= nice || r >= matchfinder::probe(h, base, next, along(link, node, k), max)
        }),
    decreases k,
{
    assert(along(link, node, 0) > next - base - 32768);
    let len = matchfinder::probe(h, base, next, node, max);
    let better = if len > best.0 {
        (len, next - base - node)
    } else {
        best
    };
    let after = link[node % 32768] as int;
    lemma_chain_grows(h, link, base, next, after, (depth - 1) as nat, better, max, nice);
    if k > 0 && !(len > best.0 && len >= nice) {
        assert forall|j: nat| j <= k - 1 implies #[trigger] along(link, after, j) > next - base
            - 32768 by {
            assert(along(link, node, j + 1) == along(link, after, j));
        }
        law_search_goes_deep(
            h,
            link,
            base,
            next,
            after,
            (depth - 1) as nat,
            better,
            max,
            nice,
            (k - 1) as nat,
        );
    }
}

/// A search may look at all positions that its level allows, or at a quarter of them where a
/// good match is to be beaten.
pub proof fn law_depth(max_depth: int, best_len: int, good: int)
    requires
        max_depth >= 4,
    ensures
        best_len < good ==> hc::depth_of(max_depth, best_len, good) == max_depth,
        best_len >= good ==> 4 * hc::depth_of(max_depth, best_len, good) > max_depth - 4,
        1 <= hc::depth_of(max_depth, best_len, good) <= max_depth,
{
}

/// A position that is entered leads on to the one that was the latest before, and the other
/// positions lead on as they did, as long as they lie in the window.
pub proof fn law_chain_leads_on(t: HcTabs, p: int, k3: int, k4: int, i: int)
    requires
        sized(t),
        0 <= t.base <= p,
        0 <= k3 < 32768,
        0 <= k4 < 65536,
        0 <= i < 32768,
    ensures
        ({
            let e = hc::entered(t, p, k3, k4);
            &&& p - latest4(t, k4) < 32768 ==> e.base + e.link[p - e.base] == latest4(t, k4)
            &&& i != p - e.base && p - (t.base + t.link[i]) < 32768 ==> e.base + e.link[i] == t.base
                + t.link[i]
        }),
{
    let n = matchfinder::slides(t.base, p);
    lemma_window(t.base, p);
    lemma_slid(t.t4, t.base, n, k4);
    lemma_slid(t.link, t.base, n, i);
    lemma_slid(t.link, t.base, n, 0);
}

/// Where fewer than three bytes are to be beaten, a match of three bytes with the latest
/// position that has the same hash of three bytes counts.
pub proof fn law_search_finds_three(p: Place, h: Seq<u8>, best_len: int, depth: int, good: int)
    requires
        usable(p),
        p.next + 5 <= h.len(),
        5 <= p.max_len,
        best_len < 3,
        0 <= latest3(p.tabs, p.hash3) < p.next,
        p.next - latest3(p.tabs, p.hash3) < 32768,
        items::is_match(h, p.next, 3, p.next - latest3(p.tabs, p.hash3)),
    ensures
        chain_model::found_at(p, h, best_len, depth, good).0 >= 3,
{
    let q = chain_model::within(p, h);
    let t = hc::entered(p.tabs, p.next, p.hash3, p.hash4);
    let n = matchfinder::slides(p.tabs.base, p.next);
    lemma_window(p.tabs.base, p.next);
    lemma_slid(p.tabs.t3, p.tabs.base, n, p.hash3);
    let node3 = matchfinder::slid(p.tabs.t3, n)[p.hash3] as int;
    let node4 = matchfinder::slid(p.tabs.t4, n)[p.hash4] as int;
    let at = latest3(p.tabs, p.hash3);
    let d = p.next - at;
    assert(h[p.next] == h[p.next - d] && h[p.next + 1] == h[p.next + 1 - d] && h[p.next + 2]
        == h[p.next + 2 - d]);
    let x = h[at] + 256 * h[at + 1] + 65536 * h[at + 2];
    assert(fast_bytes::le32(h, at) == x + 16777216 * h[at + 3]);
    assert(fast_bytes::le32(h, p.next) == x + 16777216 * h[p.next + 3]);
    assert(fast_bytes::le32(h, at) % 0x100_0000 == x);
    assert(fast_bytes::le32(h, p.next) % 0x100_0000 == x);
    lemma_chain_grows(
        h,
        t.link,
        t.base,
        p.next,
        node4,
        hc::depth_of(depth, best_len, good),
        (3, p.next - t.base - node3),
        q.max_len,
        q.nice_len,
    );
}

/// What is estimated of a piece that is one block is what its symbols take: the parse is the
/// one that compressing the piece makes.
pub proof fn law_estimate_is_of_the_piece(c: Setup, h: Seq<u8>, ll: Seq<u8>, ol: Seq<u8>)
    requires
        !c.split,
        c.place.next <= h.len(),
        h.len() - c.place.next < c.soft_max_len + 5000,
    ensures
        chain_model::after_passes(c, h, 1) == chain_model::after_blocks(c, h, 1),
        chain_model::pass_cost(c, h, ll, ol, 1) == items::cost(
            h,
            c.place.next,
            chain_model::after_blocks(c, h, 1).its,
            ll,
            ol,
        ),
{
    reveal_with_fuel(chain_model::after_passes, 2);
    reveal_with_fuel(chain_model::after_blocks, 2);
    reveal_with_fuel(chain_model::pass_cost, 2);
}

} // verus!
