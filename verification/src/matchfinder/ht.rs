//! Hash table matchfinder with buckets of two entries.

use crate::compress::items;
use crate::fast_bytes;
use crate::matchfinder;
use crate::matchfinder::{
    hash_at, matchfinder_init, slide_to, try_entry, HashMatchfinder, Memory, MATCHFINDER_INITVAL,
};
use vstd::arithmetic::power2::*;
use vstd::prelude::*;

verus! {

/// Number of hash bits.
pub const HT_MATCHFINDER_HASH_ORDER: u32 = 15;

/// Minimum match length.
pub const HT_MATCHFINDER_MIN_MATCH_LEN: u32 = 4;

/// Number of bytes needed at a position to find a match.
pub const HT_MATCHFINDER_REQUIRED_NBYTES: u32 = 5;

/// Matchfinder with the last two positions for each hash.
pub struct HtMatchfinder {
    /// Two entries for each hash, the later position first.
    pub hash_tab: Vec<i16>,
}

impl Clone for HtMatchfinder {
    fn clone(&self) -> (r: Self)
        ensures
            r.hash_tab@ == self.hash_tab@,
    {
        let t: Vec<i16> = self.hash_tab.clone();
        assert(t@ =~= self.hash_tab@);
        HtMatchfinder { hash_tab: t }
    }
}

/// A position entered under a hash: it comes first, and what came first is second.
pub open spec fn enter(tab: Seq<i16>, hash: int, pos: int) -> Seq<i16> {
    tab.update(2 * hash + 1, tab[2 * hash]).update(2 * hash, pos as i16)
}

/// The positions from `p` on, `n` of them, entered one after the other, the first
/// one under the hash `hash`.
pub open spec fn entered(
    tab: Seq<i16>,
    h: Seq<u8>,
    base: int,
    p: int,
    n: nat,
    hash: int,
    order: nat,
) -> Seq<i16>
    decreases n,
{
    if n == 0 {
        tab
    } else {
        entered(
            enter(tab, hash, p - base),
            h,
            base,
            p + 1,
            (n - 1) as nat,
            matchfinder::hash_of(fast_bytes::le32(h, p + 1), order),
            order,
        )
    }
}

/// The table after a search at `next`: the position comes first; what came first
/// is second unless it lies outside the window.
pub open spec fn searched(tab: Seq<i16>, hash: int, base: int, next: int) -> Seq<i16> {
    if tab[2 * hash] <= next - base - 32768 {
        tab.update(2 * hash, (next - base) as i16)
    } else {
        enter(tab, hash, next - base)
    }
}

/// The match at `next` with the two entries of a hash: that with the first entry,
/// unless it is shorter than `nice` and that with the second one is longer. The
/// second entry counts only if the first one lies in the window.
pub open spec fn found(
    h: Seq<u8>,
    base: int,
    next: int,
    e0: int,
    e1: int,
    max: int,
    nice: int,
) -> (int, int) {
    let l0 = matchfinder::probe(h, base, next, e0, max);
    let l1 = matchfinder::probe(h, base, next, e1, max);
    if e0 <= next - base - 32768 {
        (0, 0)
    } else if l1 > l0 && (l0 == 0 || l0 < nice) {
        (l1, next - base - e1)
    } else if l0 > 0 {
        (l0, next - base - e0)
    } else {
        (0, 0)
    }
}

/// Find the longest match at `in_next` among the two entries of its hash, and
/// enter the position.
#[inline]
pub fn bucket_match(
    tab: &mut Vec<i16>,
    order: u32,
    input: &[u8],
    in_base_offset: &mut usize,
    in_next: usize,
    max_len: u32,
    nice_len: u32,
    next_hash: &mut u32,
) -> (r: (u32, u32))
    requires
        1 <= order <= 15,
        old(tab)@.len() == 2 * pow2(order as nat),
        matchfinder::tab_ok(old(tab)@, *old(in_base_offset) as int, in_next as int),
        *old(in_base_offset) <= in_next,
        in_next + max_len <= input@.len(),
        5 <= max_len,
        *old(next_hash) < pow2(order as nat),
    ensures
        final(tab)@.len() == old(tab)@.len(),
        matchfinder::tab_ok(final(tab)@, *final(in_base_offset) as int, in_next + 1),
        *final(in_base_offset) <= in_next,
        *final(next_hash) < pow2(order as nat),
        r.0 != 0 ==> 4 <= r.0 <= max_len && 1 <= r.1 < 32768 && items::is_match(
            input@,
            in_next as int,
            r.0 as int,
            r.1 as int,
        ),
        ({
            let n = matchfinder::slides(*old(in_base_offset) as int, in_next as int);
            let base = *old(in_base_offset) + 32768 * n;
            let t = matchfinder::slid(old(tab)@, n);
            let hash = *old(next_hash) as int;
            &&& *final(in_base_offset) == base
            &&& final(tab)@ == searched(t, hash, base, in_next as int)
            &&& *final(next_hash) == matchfinder::hash_of(
                fast_bytes::le32(input@, in_next + 1),
                order as nat,
            )
            &&& (r.0 as int, r.1 as int) == found(
                input@,
                base,
                in_next as int,
                t[2 * hash] as int,
                t[2 * hash + 1] as int,
                max_len as int,
                nice_len as int,
            )
        }),
{
    let n: usize = input.len();
    slide_to(tab, in_base_offset, in_next);
    let in_base: usize = *in_base_offset;
    let hash: usize = *next_hash as usize;
    let ghost t = tab@;
    proof {
        assert(matchfinder::tab_ok(old(tab)@, *old(in_base_offset) as int, in_next as int));
        assert(matchfinder::tab_ok(t, in_base as int, in_next as int));
        lemma2_to64();
        if order < 15 {
            lemma_pow2_strictly_increases(order as nat, 15);
        }
        assert(t[2 * hash] == MATCHFINDER_INITVAL || 0 <= in_base + t[2 * hash] < in_next);
        assert(t[2 * hash + 1] == MATCHFINDER_INITVAL || 0 <= in_base + t[2 * hash + 1] < in_next);
    }
    *next_hash = hash_at(input, in_next + 1, order);
    let e0: i16 = tab[2 * hash];
    let e1: i16 = tab[2 * hash + 1];
    let cur_pos: i32 = (in_next - in_base) as i32;
    tab.set(2 * hash, cur_pos as i16);
    if e0 as i32 <= cur_pos - 32768 {
        return (0, 0);
    }
    tab.set(2 * hash + 1, e0);
    assert(tab@ =~= enter(t, hash as int, cur_pos as int));
    let first: (u32, u32) = try_entry(input, in_base, in_next, e0, max_len);
    if first.0 != 0 && first.0 >= nice_len {
        return first;
    }
    let second: (u32, u32) = try_entry(input, in_base, in_next, e1, max_len);
    if second.0 > first.0 {
        second
    } else {
        first
    }
}

/// Enter a position under a hash.
#[inline]
pub fn enter_pos(tab: &mut Vec<i16>, hash: u32, pos: i16)
    requires
        2 * hash + 1 < old(tab)@.len(),
    ensures
        final(tab)@ == enter(old(tab)@, hash as int, pos as int),
        final(tab)@.len() == old(tab)@.len(),
        forall|base: int, m: int, n: int|
            #![trigger matchfinder::tab_ok(old(tab)@, base, m), matchfinder::tab_ok(final(tab)@, base, n)]
            matchfinder::tab_ok(old(tab)@, base, m) && m <= n && 0 <= base + pos < n
                ==> matchfinder::tab_ok(final(tab)@, base, n),
{
    let ghost t = tab@;
    let n: usize = tab.len();
    let k: usize = 2 * hash as usize;
    let e: i16 = tab[k];
    tab.set(k + 1, e);
    tab.set(k, pos);
    proof {
        assert forall|base: int, m: int, n: int|
            #![trigger matchfinder::tab_ok(t, base, m), matchfinder::tab_ok(tab@, base, n)]
            matchfinder::tab_ok(t, base, m) && m <= n && 0 <= base + pos < n implies matchfinder::tab_ok(
            tab@,
            base,
            n,
        ) by {
            assert(t[k as int] == MATCHFINDER_INITVAL || 0 <= base + t[k as int] < m);
        }
    }
}

/// Enter all positions of a run of bytes.
pub fn enter_run(
    tab: &mut Vec<i16>,
    order: u32,
    input: &[u8],
    base: usize,
    in_next: usize,
    count: u32,
    next_hash: &mut u32,
)
    requires
        1 <= order <= 15,
        old(tab)@.len() == 2 * pow2(order as nat),
        matchfinder::tab_ok(old(tab)@, base as int, in_next as int),
        in_next + count + 5 <= input@.len(),
        0 < count <= 32768,
        base <= in_next + count - 1 < base + 32768,
        *old(next_hash) < pow2(order as nat),
    ensures
        final(tab)@.len() == old(tab)@.len(),
        matchfinder::tab_ok(final(tab)@, base as int, in_next + count),
        *final(next_hash) < pow2(order as nat),
        *final(next_hash) == matchfinder::hash_of(
            fast_bytes::le32(input@, in_next + count),
            order as nat,
        ),
        final(tab)@ == entered(
            old(tab)@,
            input@,
            base as int,
            in_next as int,
            count as nat,
            *old(next_hash) as int,
            order as nat,
        ),
{
    let in_end: usize = input.len();
    let last: usize = in_next + count as usize - 1;
    let cur_pos: i32 = (last - base) as i32 - (count as i32 - 1);
    let mut hash: u32 = *next_hash;
    let mut k: u32 = 0;
    let ghost t = tab@;
    let ghost h0 = *next_hash as int;
    proof {
        lemma2_to64();
        if order < 15 {
            lemma_pow2_strictly_increases(order as nat, 15);
        }
    }
    while k < count
        invariant
            k <= count <= 32768,
            in_end == input@.len(),
            in_next + count + 5 <= in_end,
            cur_pos == in_next - base,
            -32768 < cur_pos,
            cur_pos + count <= 32768,
            1 <= order <= 15,
            t.len() == 2 * pow2(order as nat),
            pow2(order as nat) <= 32768,
            tab@.len() == t.len(),
            hash < pow2(order as nat),
            matchfinder::tab_ok(tab@, base as int, in_next + k),
            entered(
                t,
                input@,
                base as int,
                in_next as int,
                count as nat,
                h0,
                order as nat,
            ) == entered(
                tab@,
                input@,
                base as int,
                in_next + k,
                (count - k) as nat,
                hash as int,
                order as nat,
            ),
            k > 0 ==> hash == matchfinder::hash_of(
                fast_bytes::le32(input@, in_next + k),
                order as nat,
            ),
        decreases count - k,
    {
        let ghost t1 = tab@;
        enter_pos(tab, hash, (cur_pos + k as i32) as i16);
        proof {
            assert(matchfinder::tab_ok(t1, base as int, in_next + k));
            assert(matchfinder::tab_ok(tab@, base as int, in_next + k + 1));
        }
        k = k + 1;
        hash = hash_at(input, in_next + k as usize, order);
    }
    *next_hash = hash;
}

/// A table without positions.
pub fn empty_tab(n: usize) -> (t: Vec<i16>)
    ensures
        t@.len() == n,
        forall|k: int| 0 <= k < n ==> #[trigger] t@[k] == MATCHFINDER_INITVAL,
        forall|b: int, m: int| #[trigger] matchfinder::tab_ok(t@, b, m),
{
    let mut t: Vec<i16> = Vec::new();
    let mut k: usize = 0;
    while k < n
        invariant
            k <= n,
            t@.len() == k,
            forall|j: int| 0 <= j < k ==> #[trigger] t@[j] == MATCHFINDER_INITVAL,
        decreases n - k,
    {
        t.push(MATCHFINDER_INITVAL);
        k = k + 1;
    }
    t
}

impl HtMatchfinder {
    /// Create a new matchfinder.
    pub fn new() -> (r: Self)
        ensures
            forall|b: int, n: int| #[trigger] r.wf(b, n),
            r.table() == Seq::new(Self::table_size(), |k: int| matchfinder::MATCHFINDER_INITVAL),
    {
        let r: Self = HtMatchfinder { hash_tab: empty_tab(65536) };
        assert(r.table() =~= Seq::new(
            Self::table_size(),
            |k: int| matchfinder::MATCHFINDER_INITVAL,
        ));
        r
    }
}

impl HashMatchfinder for HtMatchfinder {
    open spec fn table(&self) -> Seq<i16> {
        self.hash_tab@
    }

    open spec fn table_size() -> nat {
        65536
    }

    open spec fn found_in(m: Memory, h: Seq<u8>, next: int, max: int, nice: int) -> (int, int) {
        let n = matchfinder::slides(m.base, next);
        let t = matchfinder::slid(m.tab, n);
        found(
            h,
            m.base + 32768 * n,
            next,
            t[2 * m.hash] as int,
            t[2 * m.hash + 1] as int,
            max,
            nice,
        )
    }

    open spec fn after_search(m: Memory, h: Seq<u8>, next: int) -> Memory {
        let n = matchfinder::slides(m.base, next);
        let base = m.base + 32768 * n;
        Memory {
            tab: searched(matchfinder::slid(m.tab, n), m.hash, base, next),
            base,
            hash: matchfinder::hash_of(fast_bytes::le32(h, next + 1), 15),
        }
    }

    open spec fn after_skip(m: Memory, h: Seq<u8>, next: int, count: int) -> Memory {
        if count == 0 || next + count + 5 > h.len() {
            m
        } else {
            let n = matchfinder::slides(m.base, next + count - 1);
            let base = m.base + 32768 * n;
            let tab = matchfinder::slid(m.tab, n);
            Memory {
                tab: entered(tab, h, base, next, count as nat, m.hash, 15),
                base,
                hash: matchfinder::hash_of(fast_bytes::le32(h, next + count), 15),
            }
        }
    }

    open spec fn wf(&self, base: int, next: int) -> bool {
        &&& self.hash_tab@.len() == 65536
        &&& matchfinder::tab_ok(self.hash_tab@, base, next)
    }

    open spec fn order_of() -> nat {
        15
    }

    proof fn lemma_wf_later(&self, base: int, next: int, later: int) {
    }

    fn hash_order() -> (r: u32) {
        HT_MATCHFINDER_HASH_ORDER
    }

    fn init(&mut self) {
        matchfinder_init(self.hash_tab.as_mut_slice());
    }

    #[inline]
    fn longest_match(
        &mut self,
        input: &[u8],
        in_base_offset: &mut usize,
        in_next: usize,
        max_len: u32,
        nice_len: u32,
        next_hash: &mut u32,
    ) -> (r: (u32, u32))
    {
        proof {
            lemma2_to64();
        }
        bucket_match(
            &mut self.hash_tab,
            HT_MATCHFINDER_HASH_ORDER,
            input,
            in_base_offset,
            in_next,
            max_len,
            nice_len,
            next_hash,
        )
    }

    #[inline]
    fn skip_bytes(
        &mut self,
        input: &[u8],
        in_base_offset: &mut usize,
        in_next: usize,
        count: u32,
        next_hash: &mut u32,
    )
    {
        proof {
            lemma2_to64();
        }
        let in_end: usize = input.len();
        if count == 0 || in_end - in_next < 5 || in_end - in_next - 5 < count as usize {
            return;
        }
        let last: usize = in_next + count as usize - 1;
        slide_to(&mut self.hash_tab, in_base_offset, last);
        proof {
            assert(matchfinder::tab_ok(
                old(self).hash_tab@,
                *old(in_base_offset) as int,
                in_next as int,
            ));
        }
        enter_run(
            &mut self.hash_tab,
            HT_MATCHFINDER_HASH_ORDER,
            input,
            *in_base_offset,
            in_next,
            count,
            next_hash,
        );
    }
}

} // verus!
