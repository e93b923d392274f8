//! Binary Trees matchfinder.
//!
//! For each hash of four bytes, the positions that have it form a binary tree,
//! sorted by the data at them, with the latest position at the root. Entering a
//! position splits the tree in what sorts before it and what sorts after it, and
//! meets the matches on the way.

use crate::compress::items;
use crate::fast_bytes;
use crate::fast_bytes::load_u32_le;
use crate::matchfinder;
use crate::matchfinder::ht::empty_tab;
use crate::matchfinder::{
    entry_pos, lz_extend, lz_hash, matchfinder_init, matchfinder_rebase, MATCHFINDER_INITVAL,
};
use vstd::arithmetic::power2::*;
use vstd::prelude::*;

verus! {

/// Number of hash bits for three bytes.
pub const BT_MATCHFINDER_HASH3_ORDER: u32 = 16;

/// Number of hash bits for four bytes.
pub const BT_MATCHFINDER_HASH4_ORDER: u32 = 16;

/// Number of bytes needed at a position to enter it.
pub const BT_MATCHFINDER_REQUIRED_NBYTES: u32 = 5;

/// A match found by the matchfinder.
#[derive(Clone, Copy)]
pub struct LzMatch {
    /// Number of bytes matched.
    pub length: u16,
    /// Offset back from the current position.
    pub offset: u16,
}

/// Binary Trees matchfinder.
pub struct BtMatchfinder {
    /// Hash table for length 3 matches: two entries for each hash.
    pub hash3_tab: Vec<i16>,
    /// Hash table containing roots of binary trees for length 4+ matches.
    pub hash4_tab: Vec<i16>,
    /// Two child references for each position in the window, left and right.
    pub child_tab: Vec<i16>,
}

/// The place of a node's left child; that of the right child comes next.
pub open spec fn left_idx(node: int) -> int {
    2 * (node % 32768)
}

/// How many bytes at `next` agree with those at `pos`, but not more than `max`.
pub open spec fn agree(h: Seq<u8>, pos: int, next: int, max: int) -> int {
    matchfinder::common(h.skip(next), h.skip(pos), 0, max)
}

/// The state of entering a position: the children, the places that wait for the
/// root of what sorts before and of what sorts after the position, the node to
/// look at, how many nodes may still be looked at, the longest match so far, and
/// the matches met.
#[verifier::ext_equal]
pub struct Walk {
    pub child: Seq<i16>,
    pub lt: int,
    pub gt: int,
    pub node: int,
    pub depth: nat,
    pub best: int,
    pub met: Seq<(int, int)>,
}

/// The children and the matches once the position has been entered.
pub open spec fn walked(h: Seq<u8>, base: int, next: int, max: int, nice: int, w: Walk) -> (
    Seq<i16>,
    Seq<(int, int)>,
)
    decreases w.depth,
{
    if w.depth == 0 || w.node <= next - base - 32768 {
        (w.child.update(w.lt, MATCHFINDER_INITVAL).update(w.gt, MATCHFINDER_INITVAL), w.met)
    } else {
        let pos = base + w.node;
        let len = agree(h, pos, next, max);
        let met = if len > w.best {
            w.met.push((len, next - pos))
        } else {
            w.met
        };
        let best = if len > w.best {
            len
        } else {
            w.best
        };
        let left = left_idx(w.node);
        if len >= nice {
            let c = w.child.update(w.lt, w.child[left]);
            (c.update(w.gt, c[left + 1]), met)
        } else if h[pos + len] < h[next + len] {
            let c = w.child.update(w.lt, w.node as i16);
            walked(
                h,
                base,
                next,
                max,
                nice,
                Walk {
                    child: c,
                    lt: left + 1,
                    gt: w.gt,
                    node: c[left + 1] as int,
                    depth: (w.depth - 1) as nat,
                    best,
                    met,
                },
            )
        } else {
            let c = w.child.update(w.gt, w.node as i16);
            walked(
                h,
                base,
                next,
                max,
                nice,
                Walk {
                    child: c,
                    lt: w.lt,
                    gt: left,
                    node: c[left] as int,
                    depth: (w.depth - 1) as nat,
                    best,
                    met,
                },
            )
        }
    }
}

/// There are no more matches than nodes are looked at.
proof fn lemma_walked_few(h: Seq<u8>, base: int, next: int, max: int, nice: int, w: Walk)
    ensures
        walked(h, base, next, max, nice, w).1.len() <= w.met.len() + w.depth,
    decreases w.depth,
{
    if w.depth > 0 && w.node > next - base - 32768 {
        let pos = base + w.node;
        let len = agree(h, pos, next, max);
        let met = if len > w.best {
            w.met.push((len, next - pos))
        } else {
            w.met
        };
        let best = if len > w.best {
            len
        } else {
            w.best
        };
        let left = left_idx(w.node);
        let depth = (w.depth - 1) as nat;
        if len < nice {
            if h[pos + len] < h[next + len] {
                let c = w.child.update(w.lt, w.node as i16);
                let node = c[left + 1] as int;
                lemma_walked_few(
                    h,
                    base,
                    next,
                    max,
                    nice,
                    Walk { child: c, lt: left + 1, gt: w.gt, node, depth, best, met },
                );
            } else {
                let c = w.child.update(w.gt, w.node as i16);
                let node = c[left] as int;
                lemma_walked_few(
                    h,
                    base,
                    next,
                    max,
                    nice,
                    Walk { child: c, lt: w.lt, gt: left, node, depth, best, met },
                );
            }
        }
    }
}

/// The tables of a matchfinder.
#[verifier::ext_equal]
pub struct BtTabs {
    pub t3: Seq<i16>,
    pub t4: Seq<i16>,
    pub child: Seq<i16>,
}

/// Tables that know no position.
pub open spec fn fresh_tabs() -> BtTabs {
    BtTabs {
        t3: Seq::new(131072, |k: int| MATCHFINDER_INITVAL),
        t4: Seq::new(65536, |k: int| MATCHFINDER_INITVAL),
        child: Seq::new(65536, |k: int| MATCHFINDER_INITVAL),
    }
}

/// The tables after the window has moved on by its size.
pub open spec fn rebased_tabs(t: BtTabs) -> BtTabs {
    BtTabs {
        t3: matchfinder::rebase_tab(t.t3),
        t4: matchfinder::rebase_tab(t.t4),
        child: matchfinder::rebase_tab(t.child),
    }
}

/// The tables after the position `next` has been entered, and the matches met on the way:
/// the position comes first among the two entries of its hash of three bytes, and becomes
/// the root of the tree of its hash of four bytes.
pub open spec fn entered(
    t: BtTabs,
    h: Seq<u8>,
    base: int,
    next: int,
    max: int,
    nice: int,
    depth: int,
    hash3: int,
    hash4: int,
    met: Seq<(int, int)>,
) -> (BtTabs, Seq<(int, int)>) {
    let cur = next - base;
    let w = Walk {
        child: t.child,
        lt: left_idx(cur),
        gt: left_idx(cur) + 1,
        node: t.t4[hash4] as int,
        depth: depth as nat,
        best: 3,
        met,
    };
    let (child, out) = walked(h, base, next, max, nice, w);
    (
        BtTabs {
            t3: t.t3.update(2 * hash3, cur as i16).update(2 * hash3 + 1, t.t3[2 * hash3]),
            t4: t.t4.update(hash4, cur as i16),
            child,
        },
        out,
    )
}

/// Three bytes as a number.
pub open spec fn le24(h: Seq<u8>, p: int) -> int {
    h[p] + 256 * h[p + 1] + 65536 * h[p + 2]
}

/// The match of three bytes with one of the two entries of a hash, the first one
/// first; the second one counts only if the first one lies in the window.
pub open spec fn three(h: Seq<u8>, base: int, next: int, e0: int, e1: int) -> Seq<(int, int)> {
    let cutoff = next - base - 32768;
    if e0 <= cutoff {
        Seq::empty()
    } else if le24(h, base + e0) == le24(h, next) {
        seq![(3, next - base - e0)]
    } else if e1 > cutoff && le24(h, base + e1) == le24(h, next) {
        seq![(3, next - base - e1)]
    } else {
        Seq::empty()
    }
}

/// The lengths and offsets of matches.
pub open spec fn pairs(ms: Seq<LzMatch>) -> Seq<(int, int)> {
    ms.map_values(|m: LzMatch| (m.length as int, m.offset as int))
}

/// Matches at `next` that get longer and longer, none longer than `max`.
pub open spec fn matches_ok(h: Seq<u8>, next: int, max: int, ms: Seq<(int, int)>) -> bool {
    &&& forall|k: int|
        0 <= k < ms.len() ==> {
            &&& 3 <= (#[trigger] ms[k]).0 <= max
            &&& 1 <= ms[k].1 < 32768
            &&& items::is_match(h, next, ms[k].0, ms[k].1)
        }
    &&& forall|j: int, k: int| 0 <= j < k < ms.len() ==> (#[trigger] ms[j]).0 < (#[trigger] ms[k]).0
}

/// One more, longer match.
proof fn lemma_push_match(h: Seq<u8>, next: int, max: int, ms: Seq<(int, int)>, m: (int, int))
    requires
        matches_ok(h, next, max, ms),
        ms.len() > 0 ==> ms.last().0 < m.0,
        3 <= m.0 <= max,
        1 <= m.1 < 32768,
        items::is_match(h, next, m.0, m.1),
    ensures
        matches_ok(h, next, max, ms.push(m)),
{
    let t = ms.push(m);
    assert forall|j: int, k: int| 0 <= j < k < t.len() implies (#[trigger] t[j]).0 < (
    #[trigger] t[k]).0 by {
        if k == ms.len() && j < ms.len() - 1 {
            assert(ms[j].0 < ms[ms.len() - 1].0);
        }
    }
}

/// Bytes that agree make a match.
proof fn lemma_agree(h: Seq<u8>, pos: int, next: int, max: int)
    requires
        0 <= pos < next,
        next + max <= h.len(),
        0 <= max,
    ensures
        0 <= agree(h, pos, next, max) <= max,
        items::is_match(h, next, agree(h, pos, next, max), next - pos),
{
    let len = agree(h, pos, next, max);
    matchfinder::lemma_common(h.skip(next), h.skip(pos), 0, max);
    assert forall|i: int| next <= i < next + len implies #[trigger] h[i] == h[i - (next - pos)] by {
        assert(h.skip(next)[i - next] == h.skip(pos)[i - next]);
    }
}

/// Load 3 bytes as a u32 (little-endian, upper byte zero).
#[inline]
fn load_u24(data: &[u8], pos: usize) -> (r: u32)
    requires
        pos + 3 <= data@.len(),
    ensures
        r == le24(data@, pos as int),
{
    let n: usize = data.len();
    data[pos] as u32 + 256 * (data[pos + 1] as u32) + 65536 * (data[pos + 2] as u32)
}

/// The place of a node's left child.
#[inline]
fn left_child_idx(node: i16) -> (r: usize)
    ensures
        r == left_idx(node as int),
        r < 65536,
        r % 2 == 0,
{
    if node >= 0 {
        2 * (node as usize)
    } else {
        2 * ((node as i32 + 32768) as usize)
    }
}

impl Clone for BtMatchfinder {
    fn clone(&self) -> (r: Self)
        ensures
            r.hash3_tab@ == self.hash3_tab@,
            r.hash4_tab@ == self.hash4_tab@,
            r.child_tab@ == self.child_tab@,
    {
        let a: Vec<i16> = self.hash3_tab.clone();
        let b: Vec<i16> = self.hash4_tab.clone();
        let c: Vec<i16> = self.child_tab.clone();
        assert(a@ =~= self.hash3_tab@);
        assert(b@ =~= self.hash4_tab@);
        assert(c@ =~= self.child_tab@);
        BtMatchfinder { hash3_tab: a, hash4_tab: b, child_tab: c }
    }
}

impl BtMatchfinder {
    /// The tables have their sizes, and every entry is unused or stands for a
    /// position before `next`.
    pub open spec fn wf(&self, base: int, next: int) -> bool {
        &&& self.hash3_tab@.len() == 131072
        &&& self.hash4_tab@.len() == 65536
        &&& self.child_tab@.len() == 65536
        &&& matchfinder::tab_ok(self.hash3_tab@, base, next)
        &&& matchfinder::tab_ok(self.hash4_tab@, base, next)
        &&& matchfinder::tab_ok(self.child_tab@, base, next)
    }

    /// Create and initialize a new BtMatchfinder.
    pub fn new() -> (r: Self)
        ensures
            forall|b: int, n: int| #[trigger] r.wf(b, n),
            r.tabs() == fresh_tabs(),
    {
        let r: Self = BtMatchfinder {
            hash3_tab: empty_tab(131072),
            hash4_tab: empty_tab(65536),
            child_tab: empty_tab(65536),
        };
        assert(r.tabs() =~= fresh_tabs());
        r
    }

    /// Initialize (reset) the matchfinder for a new input buffer.
    pub fn init(&mut self)
        requires
            exists|b: int, n: int| old(self).wf(b, n),
        ensures
            forall|b: int, n: int| #[trigger] final(self).wf(b, n),
            final(self).tabs() == fresh_tabs(),
    {
        matchfinder_init(self.hash3_tab.as_mut_slice());
        matchfinder_init(self.hash4_tab.as_mut_slice());
        matchfinder_init(self.child_tab.as_mut_slice());
        assert(self.tabs() =~= fresh_tabs());
    }

    /// Slide the window by MATCHFINDER_WINDOW_SIZE.
    pub fn slide_window(&mut self)
        ensures
            final(self).hash3_tab@ == matchfinder::rebase_tab(old(self).hash3_tab@),
            final(self).hash4_tab@ == matchfinder::rebase_tab(old(self).hash4_tab@),
            final(self).child_tab@ == matchfinder::rebase_tab(old(self).child_tab@),
            forall|b: int, n: int| #[trigger]
                old(self).wf(b, n) ==> final(self).wf(b + 32768, n),
    {
        let ghost s0 = *self;
        matchfinder_rebase(self.hash3_tab.as_mut_slice());
        matchfinder_rebase(self.hash4_tab.as_mut_slice());
        matchfinder_rebase(self.child_tab.as_mut_slice());
        proof {
            assert forall|b: int, n: int| #[trigger] s0.wf(b, n) implies self.wf(b + 32768, n) by {
                matchfinder::lemma_rebase_ok(s0.hash3_tab@, b, n);
                matchfinder::lemma_rebase_ok(s0.hash4_tab@, b, n);
                matchfinder::lemma_rebase_ok(s0.child_tab@, b, n);
            }
        }
    }

    /// The tables.
    pub open spec fn tabs(&self) -> BtTabs {
        BtTabs { t3: self.hash3_tab@, t4: self.hash4_tab@, child: self.child_tab@ }
    }

    /// Get matches at the current position, sorted by strictly increasing length,
    /// and enter it. The matches are pushed to `matches`; returns their number.
    pub fn get_matches(
        &mut self,
        input: &[u8],
        in_base_offset: usize,
        cur_pos: u32,
        max_len: u32,
        nice_len: u32,
        max_search_depth: u32,
        next_hashes: &mut [u32; 2],
        matches: &mut Vec<LzMatch>,
    ) -> (count: usize)
        requires
            old(self).wf(in_base_offset as int, in_base_offset + cur_pos),
            cur_pos < 32768,
            in_base_offset + cur_pos + max_len <= input@.len(),
            5 <= max_len <= 258,
            nice_len <= max_len,
            max_search_depth > 0,
            old(next_hashes)@[0] < 65536,
            old(next_hashes)@[1] < 65536,
            old(matches)@.len() <= 0x4000_0000,
        ensures
            final(self).wf(in_base_offset as int, in_base_offset + cur_pos + 1),
            final(next_hashes)@[0] < 65536,
            final(next_hashes)@[1] < 65536,
            count <= 256,
            count <= max_search_depth + 1,
            final(matches)@.len() == old(matches)@.len() + count,
            final(matches)@.take(old(matches)@.len() as int) == old(matches)@,
            matches_ok(
                input@,
                in_base_offset + cur_pos,
                max_len as int,
                pairs(final(matches)@.skip(old(matches)@.len() as int)),
            ),
            ({
                let next = in_base_offset + cur_pos;
                let h3 = old(next_hashes)@[0] as int;
                &&& final(next_hashes)@[0] == matchfinder::hash_of(le24(input@, next + 1), 16)
                &&& final(next_hashes)@[1] == matchfinder::hash_of(
                    fast_bytes::le32(input@, next + 1),
                    16,
                )
                &&& entered(
                    old(self).tabs(),
                    input@,
                    in_base_offset as int,
                    next,
                    max_len as int,
                    nice_len as int,
                    max_search_depth as int,
                    h3,
                    old(next_hashes)@[1] as int,
                    three(
                        input@,
                        in_base_offset as int,
                        next,
                        old(self).hash3_tab@[2 * h3] as int,
                        old(self).hash3_tab@[2 * h3 + 1] as int,
                    ),
                ) == (
                    final(self).tabs(),
                    pairs(final(matches)@.skip(old(matches)@.len() as int)),
                )
            }),
    {
        let ghost m0 = matches@;
        let ghost h = input@;
        let ghost base = in_base_offset as int;
        let ghost next = base + cur_pos;
        let n: usize = input.len();
        let in_next: usize = in_base_offset + cur_pos as usize;
        let before: usize = matches.len();
        let hash4: u32 = next_hashes[1];
        let entries: (i16, i16) = self.enter_hash3(input, in_base_offset, cur_pos, next_hashes);
        let cutoff: i32 = cur_pos as i32 - 32768;
        if entries.0 as i32 > cutoff {
            let seq3: u32 = load_u24(input, in_next);
            let pos0: usize = entry_pos(in_base_offset, entries.0);
            if seq3 == load_u24(input, pos0) {
                matches.push(LzMatch { length: 3, offset: (in_next - pos0) as u16 });
            } else if entries.1 as i32 > cutoff {
                let pos1: usize = entry_pos(in_base_offset, entries.1);
                if seq3 == load_u24(input, pos1) {
                    matches.push(LzMatch { length: 3, offset: (in_next - pos1) as u16 });
                }
            }
        }
        proof {
            let t = matches@.skip(m0.len() as int);
            assert(matches@.take(m0.len() as int) =~= m0);
            assert(pairs(t) =~= three(h, base, next, entries.0 as int, entries.1 as int));
            assert(matches_ok(h, next, max_len as int, pairs(t)));
        }
        self.enter_tree(
            input,
            in_base_offset,
            cur_pos,
            max_len,
            nice_len,
            max_search_depth,
            hash4,
            matches,
            Ghost(m0.len() as int),
        );
        proof {
            let t = pairs(matches@.skip(m0.len() as int));
            lemma_matches_count(h, next, max_len as int, t);
            let h3 = old(next_hashes)@[0] as int;
            lemma_walked_few(
                h,
                base,
                next,
                max_len as int,
                nice_len as int,
                Walk {
                    child: old(self).tabs().child,
                    lt: left_idx(cur_pos as int),
                    gt: left_idx(cur_pos as int) + 1,
                    node: old(self).tabs().t4[old(next_hashes)@[1] as int] as int,
                    depth: max_search_depth as nat,
                    best: 3,
                    met: three(
                        h,
                        base,
                        next,
                        old(self).hash3_tab@[2 * h3] as int,
                        old(self).hash3_tab@[2 * h3 + 1] as int,
                    ),
                },
            );
            assert(matches@.take(m0.len() as int) =~= m0);
        }
        matches.len() - before
    }

    /// Skip one byte: enter it without recording matches.
    pub fn skip_byte(
        &mut self,
        input: &[u8],
        in_base_offset: usize,
        cur_pos: u32,
        nice_len: u32,
        max_search_depth: u32,
        next_hashes: &mut [u32; 2],
    )
        requires
            old(self).wf(in_base_offset as int, in_base_offset + cur_pos),
            cur_pos < 32768,
            in_base_offset + cur_pos + nice_len <= input@.len(),
            in_base_offset + cur_pos + 5 <= input@.len(),
            nice_len <= 258,
            max_search_depth > 0,
            old(next_hashes)@[0] < 65536,
            old(next_hashes)@[1] < 65536,
        ensures
            final(self).wf(in_base_offset as int, in_base_offset + cur_pos + 1),
            final(next_hashes)@[0] < 65536,
            final(next_hashes)@[1] < 65536,
            ({
                let next = in_base_offset + cur_pos;
                &&& final(next_hashes)@[0] == matchfinder::hash_of(le24(input@, next + 1), 16)
                &&& final(next_hashes)@[1] == matchfinder::hash_of(
                    fast_bytes::le32(input@, next + 1),
                    16,
                )
                &&& final(self).tabs() == entered(
                    old(self).tabs(),
                    input@,
                    in_base_offset as int,
                    next,
                    nice_len as int,
                    nice_len as int,
                    max_search_depth as int,
                    old(next_hashes)@[0] as int,
                    old(next_hashes)@[1] as int,
                    Seq::empty(),
                ).0
            }),
    {
        let hash4: u32 = next_hashes[1];
        let mut scratch: Vec<LzMatch> = Vec::new();
        let entries: (i16, i16) = self.enter_hash3(input, in_base_offset, cur_pos, next_hashes);
        proof {
            assert(pairs(scratch@.skip(0)) =~= Seq::empty());
        }
        self.enter_tree(
            input,
            in_base_offset,
            cur_pos,
            nice_len,
            nice_len,
            max_search_depth,
            hash4,
            &mut scratch,
            Ghost(0int),
        );
    }

    /// Enter a position under its hash of three bytes, and compute the next
    /// position's hashes. Returns the former entries.
    fn enter_hash3(
        &mut self,
        input: &[u8],
        in_base_offset: usize,
        cur_pos: u32,
        next_hashes: &mut [u32; 2],
    ) -> (r: (i16, i16))
        requires
            old(self).wf(in_base_offset as int, in_base_offset + cur_pos),
            cur_pos < 32768,
            in_base_offset + cur_pos + 5 <= input@.len(),
            old(next_hashes)@[0] < 65536,
        ensures
            final(self).hash4_tab@ == old(self).hash4_tab@,
            final(self).child_tab@ == old(self).child_tab@,
            final(self).hash3_tab@.len() == 131072,
            matchfinder::tab_ok(
                final(self).hash3_tab@,
                in_base_offset as int,
                in_base_offset + cur_pos + 1,
            ),
            final(next_hashes)@[0] < 65536,
            final(next_hashes)@[1] < 65536,
            ({
                let next = in_base_offset + cur_pos;
                let k = 2 * old(next_hashes)@[0];
                let tab = old(self).hash3_tab@;
                &&& r.0 == tab[k]
                &&& r.1 == tab[k + 1]
                &&& r.0 == MATCHFINDER_INITVAL || 0 <= in_base_offset + r.0 < next
                &&& r.1 == MATCHFINDER_INITVAL || 0 <= in_base_offset + r.1 < next
                &&& final(self).hash3_tab@ == tab.update(k, cur_pos as i16).update(k + 1, tab[k])
                &&& final(next_hashes)@[0] == matchfinder::hash_of(le24(input@, next + 1), 16)
                &&& final(next_hashes)@[1] == matchfinder::hash_of(
                    fast_bytes::le32(input@, next + 1),
                    16,
                )
            }),
    {
        proof {
            lemma2_to64();
        }
        let n: usize = input.len();
        let in_next: usize = in_base_offset + cur_pos as usize;
        let k: usize = 2 * (next_hashes[0] as usize);
        next_hashes[0] = lz_hash(load_u24(input, in_next + 1), BT_MATCHFINDER_HASH3_ORDER);
        next_hashes[1] = lz_hash(load_u32_le(input, in_next + 1), BT_MATCHFINDER_HASH4_ORDER);
        let e0: i16 = self.hash3_tab[k];
        let e1: i16 = self.hash3_tab[k + 1];
        let ghost t = self.hash3_tab@;
        proof {
            assert(t[k as int] == e0);
            assert(t[k + 1] == e1);
        }
        self.hash3_tab.set(k, cur_pos as i16);
        self.hash3_tab.set(k + 1, e0);
        (e0, e1)
    }

    /// Enter a position in the tree of its hash of four bytes, pushing the matches
    /// on the way that are longer than all before.
    fn enter_tree(
        &mut self,
        input: &[u8],
        in_base_offset: usize,
        cur_pos: u32,
        max_len: u32,
        nice_len: u32,
        max_search_depth: u32,
        hash4: u32,
        matches: &mut Vec<LzMatch>,
        from: Ghost<int>,
    )
        requires
            old(self).hash4_tab@.len() == 65536,
            old(self).child_tab@.len() == 65536,
            matchfinder::tab_ok(
                old(self).hash4_tab@,
                in_base_offset as int,
                in_base_offset + cur_pos,
            ),
            matchfinder::tab_ok(
                old(self).child_tab@,
                in_base_offset as int,
                in_base_offset + cur_pos,
            ),
            cur_pos < 32768,
            in_base_offset + cur_pos + max_len <= input@.len(),
            max_len <= 258,
            nice_len <= max_len,
            hash4 < 65536,
            0 <= from@ <= old(matches)@.len(),
            matches_ok(
                input@,
                in_base_offset + cur_pos,
                max_len as int,
                pairs(old(matches)@.skip(from@)),
            ) || max_len < 4,
            old(matches)@.len() > from@ ==> old(matches)@.last().length == 3,
        ensures
            final(self).hash3_tab@ == old(self).hash3_tab@,
            final(self).hash4_tab@ == old(self).hash4_tab@.update(hash4 as int, cur_pos as i16),
            final(self).hash4_tab@.len() == 65536,
            final(self).child_tab@.len() == 65536,
            matchfinder::tab_ok(
                final(self).hash4_tab@,
                in_base_offset as int,
                in_base_offset + cur_pos + 1,
            ),
            matchfinder::tab_ok(
                final(self).child_tab@,
                in_base_offset as int,
                in_base_offset + cur_pos + 1,
            ),
            final(matches)@.len() >= old(matches)@.len(),
            final(matches)@.take(old(matches)@.len() as int) == old(matches)@,
            matches_ok(
                input@,
                in_base_offset + cur_pos,
                max_len as int,
                pairs(final(matches)@.skip(from@)),
            ) || max_len < 4,
            (final(self).child_tab@, pairs(final(matches)@.skip(from@))) == walked(
                input@,
                in_base_offset as int,
                in_base_offset + cur_pos,
                max_len as int,
                nice_len as int,
                (Walk {
                    child: old(self).child_tab@,
                    lt: left_idx(cur_pos as int),
                    gt: left_idx(cur_pos as int) + 1,
                    node: old(self).hash4_tab@[hash4 as int] as int,
                    depth: max_search_depth as nat,
                    best: 3,
                    met: pairs(old(matches)@.skip(from@)),
                }),
            ),
    {
        let n: usize = input.len();
        let in_next: usize = in_base_offset + cur_pos as usize;
        let cutoff: i32 = cur_pos as i32 - 32768;
        let ghost h = input@;
        let ghost base = in_base_offset as int;
        let ghost next = base + cur_pos;
        let ghost m0 = matches@;
        let mut node: i16 = self.hash4_tab[hash4 as usize];
        proof {
            assert(self.hash4_tab@[hash4 as int] == node);
        }
        self.hash4_tab.set(hash4 as usize, cur_pos as i16);
        let mut lt: usize = 2 * (cur_pos as usize);
        let mut gt: usize = 2 * (cur_pos as usize) + 1;
        let mut depth: u32 = max_search_depth;
        let mut best: u32 = 3;
        let ghost want = walked(
            h,
            base,
            next,
            max_len as int,
            nice_len as int,
            Walk {
                child: self.child_tab@,
                lt: lt as int,
                gt: gt as int,
                node: node as int,
                depth: depth as nat,
                best: 3,
                met: pairs(m0.skip(from@)),
            },
        );
        while depth > 0 && node as i32 > cutoff
            invariant
                n == h.len(),
                h == input@,
                base == in_base_offset,
                next == base + cur_pos,
                in_next == next,
                cur_pos < 32768,
                next + max_len <= n,
                nice_len <= max_len <= 258,
                cutoff == cur_pos - 32768,
                self.hash3_tab@ == old(self).hash3_tab@,
                self.hash4_tab@ == old(self).hash4_tab@.update(hash4 as int, cur_pos as i16),
                self.hash4_tab@.len() == 65536,
                matchfinder::tab_ok(self.hash4_tab@, base, next + 1),
                want == walked(
                    h,
                    base,
                    next,
                    max_len as int,
                    nice_len as int,
                    (Walk {
                        child: old(self).child_tab@,
                        lt: left_idx(cur_pos as int),
                        gt: left_idx(cur_pos as int) + 1,
                        node: old(self).hash4_tab@[hash4 as int] as int,
                        depth: max_search_depth as nat,
                        best: 3,
                        met: pairs(m0.skip(from@)),
                    }),
                ),
                self.child_tab@.len() == 65536,
                matchfinder::tab_ok(self.child_tab@, base, next),
                node == MATCHFINDER_INITVAL || 0 <= base + node < next,
                lt < 65536,
                gt < 65536,
                3 <= best,
                0 <= from@ <= m0.len() <= matches@.len(),
                m0 == old(matches)@,
                matches@.take(m0.len() as int) == m0,
                matches_ok(h, next, max_len as int, pairs(matches@.skip(from@))) || max_len < 4,
                matches@.len() > from@ ==> matches@.last().length == best,
                want == walked(
                    h,
                    base,
                    next,
                    max_len as int,
                    nice_len as int,
                    (Walk {
                        child: self.child_tab@,
                        lt: lt as int,
                        gt: gt as int,
                        node: node as int,
                        depth: depth as nat,
                        best: best as int,
                        met: pairs(matches@.skip(from@)),
                    }),
                ),
            decreases depth,
        {
            let pos: usize = entry_pos(in_base_offset, node);
            let a: &[u8] = vstd::slice::slice_subrange(input, in_next, n);
            let b: &[u8] = vstd::slice::slice_subrange(input, pos, n);
            proof {
                assert(a@ =~= h.skip(next));
                assert(b@ =~= h.skip(pos as int));
                lemma_agree(h, pos as int, next, max_len as int);
            }
            let len: u32 = lz_extend(a, b, 0, max_len);
            if len > best {
                let ghost t0 = matches@.skip(from@);
                let m: LzMatch = LzMatch { length: len as u16, offset: (in_next - pos) as u16 };
                let ghost ms0 = matches@;
                matches.push(m);
                proof {
                    assert(matches@.skip(from@) =~= t0.push(m));
                    assert(pairs(t0.push(m)) =~= pairs(t0).push((len as int, next - pos)));
                    if t0.len() > 0 {
                        assert(pairs(t0).last().0 == ms0.last().length);
                    }
                    lemma_push_match(h, next, max_len as int, pairs(t0), (len as int, next - pos));
                    assert(matches@.take(m0.len() as int) =~= m0);
                }
                best = len;
            }
            let left: usize = left_child_idx(node);
            if len >= nice_len {
                let l: i16 = self.child_tab[left];
                assert(self.child_tab@[left as int] == l);
                self.child_tab.set(lt, l);
                assert(matchfinder::tab_ok(self.child_tab@, base, next));
                let r: i16 = self.child_tab[left + 1];
                assert(self.child_tab@[left + 1] == r);
                self.child_tab.set(gt, r);
                return;
            }
            if input[pos + len as usize] < input[in_next + len as usize] {
                self.child_tab.set(lt, node);
                lt = left + 1;
                assert(matchfinder::tab_ok(self.child_tab@, base, next));
                node = self.child_tab[lt];
                assert(self.child_tab@[lt as int] == node);
            } else {
                self.child_tab.set(gt, node);
                gt = left;
                assert(matchfinder::tab_ok(self.child_tab@, base, next));
                node = self.child_tab[gt];
                assert(self.child_tab@[gt as int] == node);
            }
            depth = depth - 1;
        }
        self.child_tab.set(lt, MATCHFINDER_INITVAL);
        self.child_tab.set(gt, MATCHFINDER_INITVAL);
    }
}

/// Matches that get longer are not many.
pub proof fn lemma_matches_count(h: Seq<u8>, next: int, max: int, ms: Seq<(int, int)>)
    requires
        matches_ok(h, next, max, ms),
        max <= 258,
    ensures
        ms.len() <= 256,
{
    lemma_longer(h, next, max, ms, ms.len() as int);
}

pub proof fn lemma_longer(h: Seq<u8>, next: int, max: int, ms: Seq<(int, int)>, k: int)
    requires
        matches_ok(h, next, max, ms),
        0 <= k <= ms.len(),
    ensures
        k > 0 ==> ms[k - 1].0 >= 2 + k,
    decreases k,
{
    if k > 1 {
        lemma_longer(h, next, max, ms, k - 1);
        assert(ms[k - 2].0 < ms[k - 1].0);
    }
}

} // verus!
