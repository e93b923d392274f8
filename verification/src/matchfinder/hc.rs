//! Hash Chains matchfinder.
//!
//! A table for matches of three bytes, and for each hash of four bytes a chain of
//! the positions that have it, the latest first.

use crate::compress::items;
use crate::fast_bytes;
use crate::fast_bytes::load_u32_le;
use crate::matchfinder;
use crate::matchfinder::ht::empty_tab;
use crate::matchfinder::{
    entry_pos, lz_hash, matchfinder_init, matchfinder_rebase, try_entry, MATCHFINDER_INITVAL,
};
use vstd::arithmetic::power2::*;
use vstd::prelude::*;

verus! {

/// Number of hash bits for three bytes.
pub const HC_MATCHFINDER_HASH3_ORDER: u32 = 15;

/// Number of hash bits for four bytes.
pub const HC_MATCHFINDER_HASH4_ORDER: u32 = 16;

/// Hash Chains matchfinder.
pub struct HcMatchfinder {
    /// Hash table for length 3 matches (singleton entries).
    pub hash3_tab: Vec<i16>,
    /// Hash table for length 4+ matches (chain heads).
    pub hash4_tab: Vec<i16>,
    /// Chain links: the entry of a position holds the next position in its chain.
    pub next_tab: Vec<i16>,
}

/// The tables of a matchfinder and the base of their entries.
#[verifier::ext_equal]
pub struct HcTabs {
    pub t3: Seq<i16>,
    pub t4: Seq<i16>,
    pub link: Seq<i16>,
    pub base: int,
}

/// Tables that know no position.
pub open spec fn fresh_tabs(base: int) -> HcTabs {
    HcTabs {
        t3: Seq::new(32768, |k: int| matchfinder::MATCHFINDER_INITVAL),
        t4: Seq::new(65536, |k: int| matchfinder::MATCHFINDER_INITVAL),
        link: Seq::new(32768, |k: int| matchfinder::MATCHFINDER_INITVAL),
        base,
    }
}

/// The tables after position `p` has been entered: the window moves on until it
/// holds the position, which replaces the entry of its hash of three bytes and
/// comes before the chain of its hash of four bytes.
pub open spec fn entered(t: HcTabs, p: int, hash3: int, hash4: int) -> HcTabs {
    let n = matchfinder::slides(t.base, p);
    let base = t.base + 32768 * n;
    let t3 = matchfinder::slid(t.t3, n);
    let t4 = matchfinder::slid(t.t4, n);
    let link = matchfinder::slid(t.link, n);
    HcTabs {
        t3: t3.update(hash3, (p - base) as i16),
        t4: t4.update(hash4, (p - base) as i16),
        link: link.update(p - base, t4[hash4]),
        base,
    }
}

/// The hash of the three bytes at `p`.
pub open spec fn hash3_at(h: Seq<u8>, p: int) -> int {
    matchfinder::hash_of(fast_bytes::le32(h, p) % 0x100_0000, 15)
}

/// The hash of the four bytes at `p`.
pub open spec fn hash4_at(h: Seq<u8>, p: int) -> int {
    matchfinder::hash_of(fast_bytes::le32(h, p), 16)
}

/// The tables after the positions from `p` on, `n` of them, have been entered, the
/// first one under the hashes given.
pub open spec fn run_entered(
    t: HcTabs,
    h: Seq<u8>,
    p: int,
    n: nat,
    hash3: int,
    hash4: int,
) -> HcTabs
    decreases n,
{
    if n == 0 {
        t
    } else {
        run_entered(
            entered(t, p, hash3, hash4),
            h,
            p + 1,
            (n - 1) as nat,
            hash3_at(h, p + 1),
            hash4_at(h, p + 1),
        )
    }
}

/// The best of the match `best` and those with up to `depth` positions of the
/// chain that starts at `node`; the search ends where a match is as long as `nice`.
pub open spec fn chain_best(
    h: Seq<u8>,
    link: Seq<i16>,
    base: int,
    next: int,
    node: int,
    depth: nat,
    best: (int, int),
    max: int,
    nice: int,
) -> (int, int)
    decreases depth,
{
    if depth == 0 || node <= next - base - 32768 {
        best
    } else {
        let len = matchfinder::probe(h, base, next, node, max);
        let better = if len > best.0 {
            (len, next - base - node)
        } else {
            best
        };
        if len > best.0 && len >= nice {
            better
        } else {
            chain_best(
                h,
                link,
                base,
                next,
                link[node % 32768] as int,
                (depth - 1) as nat,
                better,
                max,
                nice,
            )
        }
    }
}

/// The match that a search finds: for up to two bytes to beat, three bytes at the
/// position of entry `node3` count; then the chain of `node4` is searched. Nothing
/// is searched near the end of the data, nor if the position of `node3` lies
/// outside the window while fewer than four bytes are to beat, nor if what is to
/// beat is as long as `nice`.
pub open spec fn hc_found(
    h: Seq<u8>,
    link: Seq<i16>,
    base: int,
    next: int,
    node3: int,
    node4: int,
    best_len: int,
    max: int,
    nice: int,
    depth: nat,
) -> (int, int) {
    let cutoff = next - base - 32768;
    if max < 5 || (best_len < 4 && node3 <= cutoff) || (best_len >= 4 && best_len >= nice) {
        (best_len, 0)
    } else {
        let best = if best_len < 3 && fast_bytes::le32(h, base + node3) % 0x100_0000
            == fast_bytes::le32(h, next) % 0x100_0000 {
            (3, next - base - node3)
        } else {
            (best_len, 0)
        };
        chain_best(h, link, base, next, node4, depth, best, max, nice)
    }
}

/// The number of chain positions to search: a quarter where what is to beat is
/// already good.
pub open spec fn depth_of(max_search_depth: int, best_len: int, good_match: int) -> nat {
    if best_len >= good_match && max_search_depth >= 4 {
        (max_search_depth / 4) as nat
    } else {
        max_search_depth as nat
    }
}

/// Equal hashes of three bytes do not matter; equal bytes make a match.
proof fn lemma_three(h: Seq<u8>, p: int, q: int)
    requires
        0 <= q < p,
        p + 4 <= h.len(),
        fast_bytes::le32(h, q) % 0x100_0000 == fast_bytes::le32(h, p) % 0x100_0000,
    ensures
        items::is_match(h, p, 3, p - q),
{
    assert forall|i: int| p <= i < p + 3 implies #[trigger] h[i] == h[i - (p - q)] by {
        let a0 = h[p];
        let a1 = h[p + 1];
        let a2 = h[p + 2];
        let b0 = h[q];
        let b1 = h[q + 1];
        let b2 = h[q + 2];
        assert(a0 + 256 * a1 + 65536 * a2 == b0 + 256 * b1 + 65536 * b2);
        assert(a0 == b0 && a1 == b1 && a2 == b2);
    }
}

/// A longer match agrees in the four bytes that end just past the shorter one.
proof fn lemma_tail(h: Seq<u8>, base: int, next: int, e: int, max: int, len: int)
    requires
        4 <= len < max,
        base <= next,
        matchfinder::probe(h, base, next, e, max) > len,
        0 <= base + e < next,
        next + max <= h.len(),
    ensures
        fast_bytes::le32(h, base + e + len - 3) == fast_bytes::le32(h, next + len - 3),
{
    matchfinder::lemma_probe(h, base, next, e, max);
    let d = next - base - e;
    assert(h[next + len - 3] == h[next + len - 3 - d]);
    assert(h[next + len - 2] == h[next + len - 2 - d]);
    assert(h[next + len - 1] == h[next + len - 1 - d]);
    assert(h[next + len] == h[next + len - d]);
    fast_bytes::lemma_le32_eq(h, base + e + len - 3, h, next + len - 3);
}

impl Clone for HcMatchfinder {
    fn clone(&self) -> (r: Self)
        ensures
            r.hash3_tab@ == self.hash3_tab@,
            r.hash4_tab@ == self.hash4_tab@,
            r.next_tab@ == self.next_tab@,
    {
        let a: Vec<i16> = self.hash3_tab.clone();
        let b: Vec<i16> = self.hash4_tab.clone();
        let c: Vec<i16> = self.next_tab.clone();
        assert(a@ =~= self.hash3_tab@);
        assert(b@ =~= self.hash4_tab@);
        assert(c@ =~= self.next_tab@);
        HcMatchfinder { hash3_tab: a, hash4_tab: b, next_tab: c }
    }
}

impl HcMatchfinder {
    /// The tables have their sizes, and every entry is unused or stands for a
    /// position before `next`.
    pub open spec fn wf(&self, base: int, next: int) -> bool {
        &&& self.hash3_tab@.len() == 32768
        &&& self.hash4_tab@.len() == 65536
        &&& self.next_tab@.len() == 32768
        &&& matchfinder::tab_ok(self.hash3_tab@, base, next)
        &&& matchfinder::tab_ok(self.hash4_tab@, base, next)
        &&& matchfinder::tab_ok(self.next_tab@, base, next)
    }

    /// The tables.
    pub open spec fn tabs(&self, base: int) -> HcTabs {
        HcTabs { t3: self.hash3_tab@, t4: self.hash4_tab@, link: self.next_tab@, base }
    }

    /// Create and initialize a new HcMatchfinder.
    pub fn new() -> (r: Self)
        ensures
            forall|b: int, n: int| #[trigger] r.wf(b, n),
            forall|b: int| #[trigger] r.tabs(b) == fresh_tabs(b),
    {
        let r: Self = HcMatchfinder {
            hash3_tab: empty_tab(32768),
            hash4_tab: empty_tab(65536),
            next_tab: empty_tab(32768),
        };
        assert forall|b: int| #[trigger] r.tabs(b) == fresh_tabs(b) by {
            assert(r.tabs(b) =~= fresh_tabs(b));
        }
        r
    }

    /// Initialize (reset) the matchfinder for a new input buffer.
    pub fn init(&mut self)
        requires
            exists|b: int, n: int| old(self).wf(b, n),
        ensures
            forall|b: int, n: int| #[trigger] final(self).wf(b, n),
            forall|b: int| #[trigger] final(self).tabs(b) == fresh_tabs(b),
    {
        matchfinder_init(self.hash3_tab.as_mut_slice());
        matchfinder_init(self.hash4_tab.as_mut_slice());
        matchfinder_init(self.next_tab.as_mut_slice());
        assert forall|b: int| #[trigger] self.tabs(b) == fresh_tabs(b) by {
            assert(self.tabs(b) =~= fresh_tabs(b));
        }
    }

    /// Move the window on until position `next` lies in it.
    fn slide_window(&mut self, in_base_offset: &mut usize, next: usize)
        requires
            *old(in_base_offset) <= next,
        ensures
            *final(in_base_offset) <= next < *final(in_base_offset) + 32768,
            ({
                let n = matchfinder::slides(*old(in_base_offset) as int, next as int);
                &&& *final(in_base_offset) == *old(in_base_offset) + 32768 * n
                &&& final(self).hash3_tab@ == matchfinder::slid(old(self).hash3_tab@, n)
                &&& final(self).hash4_tab@ == matchfinder::slid(old(self).hash4_tab@, n)
                &&& final(self).next_tab@ == matchfinder::slid(old(self).next_tab@, n)
            }),
            forall|m: int| #[trigger]
                old(self).wf(*old(in_base_offset) as int, m) ==> final(self).wf(
                    *final(in_base_offset) as int,
                    m,
                ),
    {
        let ghost s0 = *self;
        let ghost b0 = *in_base_offset as int;
        let ghost total = matchfinder::slides(b0, next as int);
        let ghost mut k: nat = 0;
        while next - *in_base_offset >= 32768
            invariant
                s0 == *old(self),
                b0 == *old(in_base_offset),
                total == matchfinder::slides(b0, next as int),
                *in_base_offset <= next,
                *in_base_offset == b0 + 32768 * k,
                k <= total,
                matchfinder::slid(s0.hash3_tab@, total) == matchfinder::slid(
                    self.hash3_tab@,
                    (total - k) as nat,
                ),
                matchfinder::slid(s0.hash4_tab@, total) == matchfinder::slid(
                    self.hash4_tab@,
                    (total - k) as nat,
                ),
                matchfinder::slid(s0.next_tab@, total) == matchfinder::slid(
                    self.next_tab@,
                    (total - k) as nat,
                ),
                forall|m: int| #[trigger] s0.wf(b0, m) ==> self.wf(*in_base_offset as int, m),
            decreases next - *in_base_offset,
        {
            let ghost s1 = *self;
            let ghost b1 = *in_base_offset as int;
            matchfinder_rebase(self.hash3_tab.as_mut_slice());
            matchfinder_rebase(self.hash4_tab.as_mut_slice());
            matchfinder_rebase(self.next_tab.as_mut_slice());
            *in_base_offset = *in_base_offset + 32768;
            proof {
                assert forall|m: int| #[trigger] s0.wf(b0, m) implies self.wf(
                    *in_base_offset as int,
                    m,
                ) by {
                    matchfinder::lemma_rebase_ok(s1.hash3_tab@, b1, m);
                    matchfinder::lemma_rebase_ok(s1.hash4_tab@, b1, m);
                    matchfinder::lemma_rebase_ok(s1.next_tab@, b1, m);
                }
                k = k + 1;
            }
        }
    }

    /// Enter a position; returns the former entries of its hashes.
    #[inline]
    fn enter(
        &mut self,
        in_base_offset: &mut usize,
        in_next: usize,
        hash3: u32,
        hash4: u32,
    ) -> (r: (i16, i16))
        requires
            old(self).wf(*old(in_base_offset) as int, in_next as int),
            *old(in_base_offset) <= in_next < usize::MAX,
            hash3 < 32768,
            hash4 < 65536,
        ensures
            final(self).wf(*final(in_base_offset) as int, in_next + 1),
            *final(in_base_offset) <= in_next < *final(in_base_offset) + 32768,
            final(self).tabs(*final(in_base_offset) as int) == entered(
                old(self).tabs(*old(in_base_offset) as int),
                in_next as int,
                hash3 as int,
                hash4 as int,
            ),
            ({
                let n = matchfinder::slides(*old(in_base_offset) as int, in_next as int);
                &&& r.0 == matchfinder::slid(old(self).hash3_tab@, n)[hash3 as int]
                &&& r.1 == matchfinder::slid(old(self).hash4_tab@, n)[hash4 as int]
            }),
            matchfinder::tab_ok(
                final(self).next_tab@,
                *final(in_base_offset) as int,
                in_next as int,
            ),
            r.0 == MATCHFINDER_INITVAL || 0 <= *final(in_base_offset) + r.0 < in_next,
            r.1 == MATCHFINDER_INITVAL || 0 <= *final(in_base_offset) + r.1 < in_next,
    {
        self.slide_window(in_base_offset, in_next);
        proof {
            assert(old(self).wf(*old(in_base_offset) as int, in_next as int));
        }
        let ghost s1 = *self;
        let cur_pos: usize = in_next - *in_base_offset;
        let node3: i16 = self.hash3_tab[hash3 as usize];
        let node4: i16 = self.hash4_tab[hash4 as usize];
        self.hash3_tab.set(hash3 as usize, cur_pos as i16);
        self.hash4_tab.set(hash4 as usize, cur_pos as i16);
        self.next_tab.set(cur_pos, node4);
        proof {
            assert(s1.hash3_tab@[hash3 as int] == node3);
            assert(s1.hash4_tab@[hash4 as int] == node4);
        }
        (node3, node4)
    }

    /// The hashes at a position.
    #[inline]
    fn hashes(input: &[u8], pos: usize) -> (r: (u32, u32))
        requires
            pos + 4 <= input@.len(),
        ensures
            r.0 == hash3_at(input@, pos as int),
            r.1 == hash4_at(input@, pos as int),
            r.0 < 32768,
            r.1 < 65536,
    {
        proof {
            lemma2_to64();
        }
        let seq: u32 = load_u32_le(input, pos);
        (
            lz_hash(seq % 0x100_0000, HC_MATCHFINDER_HASH3_ORDER),
            lz_hash(seq, HC_MATCHFINDER_HASH4_ORDER),
        )
    }

    /// Search a chain for a match longer than the best one so far.
    fn search_chain(
        &self,
        input: &[u8],
        in_base: usize,
        in_next: usize,
        first: i16,
        max_depth: u32,
        best_len: u32,
        best_off: u32,
        max_len: u32,
        nice_len: u32,
    ) -> (r: (u32, u32))
        requires
            self.next_tab@.len() == 32768,
            matchfinder::tab_ok(self.next_tab@, in_base as int, in_next as int),
            first == MATCHFINDER_INITVAL || 0 <= in_base + first < in_next,
            in_base <= in_next < in_base + 32768,
            in_next + max_len <= input@.len(),
            5 <= max_len,
            nice_len <= max_len,
            best_len >= 4 ==> best_len < nice_len,
        ensures
            (r.0 as int, r.1 as int) == chain_best(
                input@,
                self.next_tab@,
                in_base as int,
                in_next as int,
                first as int,
                max_depth as nat,
                (best_len as int, best_off as int),
                max_len as int,
                nice_len as int,
            ),
            r.0 >= best_len,
            r.0 > best_len ==> 4 <= r.0 <= max_len && 1 <= r.1 < 32768 && items::is_match(
                input@,
                in_next as int,
                r.0 as int,
                r.1 as int,
            ),
            r.0 == best_len ==> r.1 == best_off,
    {
        let n: usize = input.len();
        let cutoff: i32 = (in_next - in_base) as i32 - 32768;
        let mut node: i16 = first;
        let mut depth: u32 = max_depth;
        let mut best: u32 = best_len;
        let mut best_offset: u32 = best_off;
        let ghost link = self.next_tab@;
        let ghost h = input@;
        let ghost want = chain_best(
            h,
            link,
            in_base as int,
            in_next as int,
            node as int,
            depth as nat,
            (best as int, best_offset as int),
            max_len as int,
            nice_len as int,
        );
        while depth > 0 && node as i32 > cutoff
            invariant
                n == input@.len(),
                h == input@,
                in_base <= in_next < in_base + 32768,
                in_next + max_len <= n,
                5 <= max_len,
                nice_len <= max_len,
                cutoff == in_next - in_base - 32768,
                link == self.next_tab@,
                link.len() == 32768,
                matchfinder::tab_ok(link, in_base as int, in_next as int),
                node == MATCHFINDER_INITVAL || 0 <= in_base + node < in_next,
                want == chain_best(
                    h,
                    link,
                    in_base as int,
                    in_next as int,
                    first as int,
                    max_depth as nat,
                    (best_len as int, best_off as int),
                    max_len as int,
                    nice_len as int,
                ),
                want == chain_best(
                    h,
                    link,
                    in_base as int,
                    in_next as int,
                    node as int,
                    depth as nat,
                    (best as int, best_offset as int),
                    max_len as int,
                    nice_len as int,
                ),
                best >= best_len,
                best >= 4 ==> best < nice_len,
                best > best_len ==> 4 <= best <= max_len && 1 <= best_offset < 32768
                    && items::is_match(h, in_next as int, best as int, best_offset as int),
                best == best_len ==> best_offset == best_off,
            decreases depth,
        {
            let match_pos: usize = entry_pos(in_base, node);
            let mut promising: bool = true;
            if best >= 4 {
                let tail: usize = best as usize - 3;
                promising = load_u32_le(input, match_pos + tail) == load_u32_le(
                    input,
                    in_next + tail,
                );
            }
            let mut r: (u32, u32) = (0, 0);
            if promising {
                r = try_entry(input, in_base, in_next, node, max_len);
            }
            proof {
                let len = matchfinder::probe(
                    h,
                    in_base as int,
                    in_next as int,
                    node as int,
                    max_len as int,
                );
                if !promising && len > best {
                    lemma_tail(
                        h,
                        in_base as int,
                        in_next as int,
                        node as int,
                        max_len as int,
                        best as int,
                    );
                }
            }
            if r.0 > best {
                best = r.0;
                best_offset = r.1;
                if best >= nice_len {
                    return (best, best_offset);
                }
            }
            let k: usize = if node >= 0 {
                node as usize
            } else {
                (node as i32 + 32768) as usize
            };
            assert(k == node as int % 32768);
            node = self.next_tab[k];
            depth = depth - 1;
        }
        (best, best_offset)
    }

    /// Find the longest match longer than `best_len` bytes.
    ///
    /// `best_len` is the length to beat. Returns the length found, which is
    /// `best_len` if no longer match was found, and its offset, which is 0 then.
    pub fn longest_match(
        &mut self,
        input: &[u8],
        in_base_offset: &mut usize,
        in_next: usize,
        best_len: u32,
        max_len: u32,
        nice_len: u32,
        max_search_depth: u32,
        good_match: u32,
        next_hashes: &mut [u32; 2],
    ) -> (r: (u32, u32))
        requires
            old(self).wf(*old(in_base_offset) as int, in_next as int),
            *old(in_base_offset) <= in_next,
            in_next < input@.len(),
            in_next + max_len <= input@.len(),
            nice_len <= max_len,
            max_search_depth > 0,
            old(next_hashes)@[0] < 32768,
            old(next_hashes)@[1] < 65536,
        ensures
            final(self).wf(*final(in_base_offset) as int, in_next + 1),
            *final(in_base_offset) <= in_next,
            final(next_hashes)@[0] < 32768,
            final(next_hashes)@[1] < 65536,
            in_next + 5 <= input@.len() ==> final(next_hashes)@[0] == hash3_at(input@, in_next + 1)
                && final(next_hashes)@[1] == hash4_at(input@, in_next + 1),
            in_next + 5 > input@.len() ==> final(next_hashes)@ == old(next_hashes)@,
            final(self).tabs(*final(in_base_offset) as int) == entered(
                old(self).tabs(*old(in_base_offset) as int),
                in_next as int,
                old(next_hashes)@[0] as int,
                old(next_hashes)@[1] as int,
            ),
            ({
                let n = matchfinder::slides(*old(in_base_offset) as int, in_next as int);
                let node3 = matchfinder::slid(old(self).hash3_tab@, n)[old(next_hashes)@[0] as int];
                let node4 = matchfinder::slid(old(self).hash4_tab@, n)[old(next_hashes)@[1] as int];
                (r.0 as int, r.1 as int) == hc_found(
                    input@,
                    final(self).next_tab@,
                    *final(in_base_offset) as int,
                    in_next as int,
                    node3 as int,
                    node4 as int,
                    best_len as int,
                    max_len as int,
                    nice_len as int,
                    depth_of(max_search_depth as int, best_len as int, good_match as int),
                )
            }),
            r.0 >= best_len,
            r.0 > best_len ==> 3 <= r.0 <= max_len && 1 <= r.1 < 32768 && items::is_match(
                input@,
                in_next as int,
                r.0 as int,
                r.1 as int,
            ),
            r.0 == best_len ==> r.1 == 0,
    {
        let n: usize = input.len();
        let nodes: (i16, i16) = self.enter(in_base_offset, in_next, next_hashes[0], next_hashes[1]);
        let node3: i16 = nodes.0;
        let in_base: usize = *in_base_offset;
        if n - in_next >= 5 {
            let hs: (u32, u32) = Self::hashes(input, in_next + 1);
            next_hashes[0] = hs.0;
            next_hashes[1] = hs.1;
        }
        if max_len < 5 {
            return (best_len, 0);
        }
        let cutoff: i32 = (in_next - in_base) as i32 - 32768;
        let mut best: u32 = best_len;
        let mut best_offset: u32 = 0;
        if best_len < 4 {
            if node3 as i32 <= cutoff {
                return (best_len, 0);
            }
            if best_len < 3 {
                let match_pos: usize = entry_pos(in_base, node3);
                if load_u32_le(input, match_pos) % 0x100_0000 == load_u32_le(input, in_next)
                    % 0x100_0000 {
                    proof {
                        lemma_three(input@, in_next as int, match_pos as int);
                    }
                    best = 3;
                    best_offset = (in_next - match_pos) as u32;
                }
            }
        } else if best_len >= nice_len {
            return (best_len, 0);
        }
        let depth: u32 = if best_len >= good_match && max_search_depth >= 4 {
            max_search_depth / 4
        } else {
            max_search_depth
        };
        let found: (u32, u32) = self.search_chain(
            input,
            in_base,
            in_next,
            nodes.1,
            depth,
            best,
            best_offset,
            max_len,
            nice_len,
        );
        found
    }

    /// Skip `count` bytes, updating hash tables without searching for matches.
    ///
    /// Does nothing if fewer than five bytes follow.
    pub fn skip_bytes(
        &mut self,
        input: &[u8],
        in_base_offset: &mut usize,
        in_next: usize,
        count: u32,
        next_hashes: &mut [u32; 2],
    )
        requires
            old(self).wf(*old(in_base_offset) as int, in_next as int),
            *old(in_base_offset) <= in_next,
            in_next + count <= input@.len(),
            old(next_hashes)@[0] < 32768,
            old(next_hashes)@[1] < 65536,
        ensures
            final(self).wf(*final(in_base_offset) as int, in_next + count),
            *final(in_base_offset) <= in_next + count,
            final(next_hashes)@[0] < 32768,
            final(next_hashes)@[1] < 65536,
            in_next + count + 5 > input@.len() || count == 0 ==> *final(self) == *old(self)
                && *final(in_base_offset) == *old(in_base_offset) && final(next_hashes)@ == old(
                next_hashes,
            )@,
            in_next + count + 5 <= input@.len() && count > 0 ==> {
                &&& final(next_hashes)@[0] == hash3_at(input@, in_next + count)
                &&& final(next_hashes)@[1] == hash4_at(input@, in_next + count)
                &&& final(self).tabs(*final(in_base_offset) as int) == run_entered(
                    old(self).tabs(*old(in_base_offset) as int),
                    input@,
                    in_next as int,
                    count as nat,
                    old(next_hashes)@[0] as int,
                    old(next_hashes)@[1] as int,
                )
            },
    {
        let n: usize = input.len();
        if count == 0 || n - in_next - (count as usize) < 5 {
            return;
        }
        let mut hs: (u32, u32) = (next_hashes[0], next_hashes[1]);
        let mut k: u32 = 0;
        let ghost want = run_entered(
            self.tabs(*in_base_offset as int),
            input@,
            in_next as int,
            count as nat,
            hs.0 as int,
            hs.1 as int,
        );
        while k < count
            invariant
                k <= count,
                n == input@.len(),
                in_next + count + 5 <= n,
                self.wf(*in_base_offset as int, in_next + k),
                *in_base_offset <= in_next + k,
                hs.0 < 32768,
                hs.1 < 65536,
                k > 0 ==> hs.0 == hash3_at(input@, in_next + k) && hs.1 == hash4_at(
                    input@,
                    in_next + k,
                ),
                want == run_entered(
                    self.tabs(*in_base_offset as int),
                    input@,
                    in_next + k,
                    (count - k) as nat,
                    hs.0 as int,
                    hs.1 as int,
                ),
            decreases count - k,
        {
            let unused: (i16, i16) = self.enter(
                in_base_offset,
                in_next + k as usize,
                hs.0,
                hs.1,
            );
            k = k + 1;
            hs = Self::hashes(input, in_next + k as usize);
        }
        next_hashes[0] = hs.0;
        next_hashes[1] = hs.1;
    }
}

} // verus!
