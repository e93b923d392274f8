//! Turbo matchfinder: a hash table with one entry for each hash, and few updates
//! while skipping.

use crate::fast_bytes;
use crate::matchfinder;
use crate::matchfinder::{
    hash_at, matchfinder_init, slide_to, try_entry, HashMatchfinder, Memory, MATCHFINDER_INITVAL,
};
use vstd::arithmetic::power2::*;
use vstd::prelude::*;

verus! {

/// Number of hash bits.
pub const TURBO_MATCHFINDER_HASH_ORDER: u32 = 15;

/// Minimum match length.
pub const TURBO_MIN_MATCH_LEN: u32 = 4;

/// Number of bytes needed at a position to find a match.
pub const TURBO_REQUIRED_NBYTES: u32 = 5;

/// While skipping at most this many bytes, every position is remembered.
pub const SKIP_UPDATE_LIMIT: u32 = 3;

/// Matchfinder with one entry for each hash.
pub struct TurboMatchfinder {
    /// The last position seen for each hash.
    pub hash_tab: Vec<i16>,
}

impl Clone for TurboMatchfinder {
    fn clone(&self) -> (r: Self)
        ensures
            r.hash_tab@ == self.hash_tab@,
    {
        let t: Vec<i16> = self.hash_tab.clone();
        assert(t@ =~= self.hash_tab@);
        TurboMatchfinder { hash_tab: t }
    }
}

/// The positions from `p` on, `n` of them, entered one after the other, the first
/// one under the hash `hash`.
pub open spec fn entered(
    tab: Seq<i16>,
    h: Seq<u8>,
    base: int,
    p: int,
    n: nat,
    hash: int,
) -> Seq<i16>
    decreases n,
{
    if n == 0 {
        tab
    } else {
        entered(tab.update(hash, (p - base) as i16), h, base, p + 1, (n - 1) as nat, next_hash(h, p, hash))
    }
}

/// The hash at the position behind `p`, or that of `p` where too few bytes follow.
pub open spec fn next_hash(h: Seq<u8>, p: int, hash: int) -> int {
    if p + 5 <= h.len() {
        matchfinder::hash_of(fast_bytes::le32(h, p + 1), 15)
    } else {
        hash
    }
}

impl TurboMatchfinder {
    /// Create a new matchfinder.
    pub fn new() -> (r: Self)
        ensures
            forall|b: int, n: int| #[trigger] r.wf(b, n),
            r.table() == Seq::new(Self::table_size(), |k: int| MATCHFINDER_INITVAL),
    {
        let mut t: Vec<i16> = Vec::new();
        let mut k: usize = 0;
        while k < 32768
            invariant
                k <= 32768,
                t@.len() == k,
                forall|j: int| 0 <= j < k ==> #[trigger] t@[j] == MATCHFINDER_INITVAL,
            decreases 32768 - k,
        {
            t.push(MATCHFINDER_INITVAL);
            k = k + 1;
        }
        assert(t@ =~= Seq::new(32768, |k: int| MATCHFINDER_INITVAL));
        TurboMatchfinder { hash_tab: t }
    }
}

impl HashMatchfinder for TurboMatchfinder {
    open spec fn table(&self) -> Seq<i16> {
        self.hash_tab@
    }

    open spec fn table_size() -> nat {
        32768
    }

    open spec fn found_in(m: Memory, h: Seq<u8>, next: int, max: int, nice: int) -> (int, int) {
        let n = matchfinder::slides(m.base, next);
        let base = m.base + 32768 * n;
        let e = matchfinder::slid(m.tab, n)[m.hash] as int;
        let length = matchfinder::probe(h, base, next, e, max);
        (
            length,
            if length == 0 {
                0
            } else {
                next - base - e
            },
        )
    }

    open spec fn after_search(m: Memory, h: Seq<u8>, next: int) -> Memory {
        let n = matchfinder::slides(m.base, next);
        let base = m.base + 32768 * n;
        Memory {
            tab: matchfinder::slid(m.tab, n).update(m.hash, (next - base) as i16),
            base,
            hash: self::next_hash(h, next, m.hash),
        }
    }

    open spec fn after_skip(m: Memory, h: Seq<u8>, next: int, count: int) -> Memory {
        if count == 0 || next + count + 5 > h.len() {
            m
        } else {
            let n = matchfinder::slides(m.base, next + count - 1);
            let base = m.base + 32768 * n;
            let tab = matchfinder::slid(m.tab, n);
            let mid = next + count / 2;
            let end = next + count - 1;
            Memory {
                tab: if count <= 3 {
                    entered(tab, h, base, next, count as nat, m.hash)
                } else {
                    tab.update(m.hash, (next - base) as i16).update(
                        matchfinder::hash_of(fast_bytes::le32(h, mid), 15),
                        (mid - base) as i16,
                    ).update(
                        matchfinder::hash_of(fast_bytes::le32(h, end), 15),
                        (end - base) as i16,
                    )
                },
                base,
                hash: matchfinder::hash_of(fast_bytes::le32(h, next + count), 15),
            }
        }
    }

    open spec fn wf(&self, base: int, next: int) -> bool {
        &&& self.hash_tab@.len() == 32768
        &&& matchfinder::tab_ok(self.hash_tab@, base, next)
    }

    open spec fn order_of() -> nat {
        15
    }

    proof fn lemma_wf_later(&self, base: int, next: int, later: int) {
    }

    fn hash_order() -> (r: u32) {
        TURBO_MATCHFINDER_HASH_ORDER
    }

    fn init(&mut self) {
        matchfinder_init(self.hash_tab.as_mut_slice());
    }

    #[inline]
    fn longest_match(
        &mut self,
        input: &[u8],
        in_base_offset: &mut usize,
        in_next: usize,
        max_len: u32,
        nice_len: u32,
        next_hash: &mut u32,
    ) -> (r: (u32, u32))
    {
        proof {
            lemma2_to64();
        }
        slide_to(&mut self.hash_tab, in_base_offset, in_next);
        let in_base: usize = *in_base_offset;
        let hash: usize = *next_hash as usize;
        if input.len() - in_next >= 5 {
            *next_hash = hash_at(input, in_next + 1, 15);
        }
        let e: i16 = self.hash_tab[hash];
        let ghost t = self.hash_tab@;
        assert(matchfinder::tab_ok(old(self).hash_tab@, *old(in_base_offset) as int, in_next as int));
        assert(matchfinder::tab_ok(t, in_base as int, in_next as int));
        assert(t[hash as int] == MATCHFINDER_INITVAL || 0 <= in_base + t[hash as int] < in_next);
        self.hash_tab.set(hash, (in_next - in_base) as i16);
        try_entry(input, in_base, in_next, e, max_len)
    }

    #[inline]
    fn skip_bytes(
        &mut self,
        input: &[u8],
        in_base_offset: &mut usize,
        in_next: usize,
        count: u32,
        next_hash: &mut u32,
    )
    {
        proof {
            lemma2_to64();
        }
        let in_end: usize = input.len();
        if count == 0 || in_end - in_next < 5 || in_end - in_next - 5 < count as usize {
            return;
        }
        let last: usize = in_next + count as usize - 1;
        slide_to(&mut self.hash_tab, in_base_offset, last);
        let base: usize = *in_base_offset;
        let cur_pos: i32 = (last - base) as i32 - (count as i32 - 1);
        assert(cur_pos == in_next - base);
        assert(matchfinder::tab_ok(old(self).hash_tab@, *old(in_base_offset) as int, in_next as int));
        assert(matchfinder::tab_ok(self.hash_tab@, base as int, in_next as int));
        if count <= SKIP_UPDATE_LIMIT {
            let mut hash: u32 = *next_hash;
            let mut k: u32 = 0;
            let ghost t = self.hash_tab@;
            let ghost h0 = *next_hash as int;
            while k < count
                invariant
                    k <= count <= 3,
                    in_end == input@.len(),
                    in_next + count + 5 <= in_end,
                    cur_pos == in_next - base,
                    -32768 < cur_pos,
                    cur_pos + count <= 32768,
                    self.hash_tab@.len() == 32768,
                    hash < 32768,
                    pow2(15) == 32768,
                    matchfinder::tab_ok(self.hash_tab@, base as int, in_next + k),
                    entered(t, input@, base as int, in_next as int, count as nat, h0) == entered(
                        self.hash_tab@,
                        input@,
                        base as int,
                        in_next + k,
                        (count - k) as nat,
                        hash as int,
                    ),
                    k > 0 ==> hash == matchfinder::hash_of(
                        fast_bytes::le32(input@, in_next + k),
                        15,
                    ),
                decreases count - k,
            {
                self.hash_tab.set(hash as usize, (cur_pos + k as i32) as i16);
                k = k + 1;
                hash = hash_at(input, in_next + k as usize, 15);
            }
            *next_hash = hash;
        } else {
            let mid: u32 = count / 2;
            self.hash_tab.set(*next_hash as usize, cur_pos as i16);
            let mid_hash: u32 = hash_at(input, in_next + mid as usize, 15);
            self.hash_tab.set(mid_hash as usize, (cur_pos + mid as i32) as i16);
            let end_hash: u32 = hash_at(input, last, 15);
            self.hash_tab.set(end_hash as usize, (cur_pos + count as i32 - 1) as i16);
            *next_hash = hash_at(input, last + 1, 15);
        }
    }
}

} // verus!
