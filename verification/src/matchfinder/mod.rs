//! Common matchfinder code for LZ77 match finding.
//!
//! A matchfinder keeps positions of the input as 16-bit numbers relative to a
//! base that moves along with the input.

pub mod bt;
pub mod fast_ht;
pub mod hc;
pub mod ht;
pub mod turbo;

use crate::arith::drop_bits;
use crate::compress::items;
use crate::fast_bytes;
use crate::fast_bytes::load_u32_le;
use vstd::arithmetic::power2::*;
use vstd::prelude::*;

verus! {

/// Matchfinder window order (log2 of window size).
pub const MATCHFINDER_WINDOW_ORDER: u32 = 15;

/// Matchfinder window size in bytes.
pub const MATCHFINDER_WINDOW_SIZE: u32 = 32768;

/// Initial value for matchfinder position entries (= -WINDOW_SIZE as i16).
pub const MATCHFINDER_INITVAL: i16 = -32768;

/// The top `num_bits` bits of the product of a number with the hash multiplier.
pub open spec fn hash_of(seq: int, num_bits: nat) -> int {
    (seq * 0x1E35A7BD) % 0x1_0000_0000 / (pow2((32 - num_bits) as nat) as int)
}

/// Multiplicative hash function for LZ77 matchfinding.
///
/// Takes a sequence prefix as a 32-bit value and returns the top `num_bits` bits
/// of the product with a carefully chosen constant.
#[inline]
pub fn lz_hash(seq: u32, num_bits: u32) -> (r: u32)
    requires
        1 <= num_bits <= 32,
    ensures
        r == hash_of(seq as int, num_bits as nat),
        r < pow2(num_bits as nat),
{
    let x: u64 = (seq as u64 * 0x1E35A7BD) % 0x1_0000_0000;
    proof {
        let d = pow2((32 - num_bits) as nat) as int;
        let m = pow2(num_bits as nat) as int;
        lemma2_to64();
        lemma_pow2_pos((32 - num_bits) as nat);
        lemma_pow2_pos(num_bits as nat);
        lemma_pow2_adds((32 - num_bits) as nat, num_bits as nat);
        assert(x as int / d < m) by (nonlinear_arith)
            requires
                0 <= x < d * m,
                0 < d,
        ;
        assert(0 <= x as int / d) by (nonlinear_arith)
            requires
                0 <= x,
                0 < d,
        ;
        if num_bits < 32 {
            lemma_pow2_strictly_increases(num_bits as nat, 32);
        }
    }
    drop_bits(x, 32 - num_bits) as u32
}

/// How far two byte sequences agree from place `n` on, but not past `max`.
pub open spec fn common(a: Seq<u8>, b: Seq<u8>, n: int, max: int) -> int
    decreases max - n,
{
    if n >= max || a[n] != b[n] {
        n
    } else {
        common(a, b, n + 1, max)
    }
}

/// The bytes up to where two sequences agree are equal.
pub proof fn lemma_common(a: Seq<u8>, b: Seq<u8>, n: int, max: int)
    requires
        n <= max,
    ensures
        n <= common(a, b, n, max) <= max,
        forall|i: int| n <= i < common(a, b, n, max) ==> #[trigger] a[i] == b[i],
        common(a, b, n, max) < max ==> a[common(a, b, n, max)] != b[common(a, b, n, max)],
    decreases max - n,
{
    if n < max && a[n] == b[n] {
        lemma_common(a, b, n + 1, max);
    }
}

/// Extend a match starting at `start_len` up to `max_len`.
///
/// Compares bytes at `strptr[start_len..]` and `matchptr[start_len..]`.
#[inline]
pub fn lz_extend(strptr: &[u8], matchptr: &[u8], start_len: u32, max_len: u32) -> (r: u32)
    requires
        max_len <= strptr@.len(),
        max_len <= matchptr@.len(),
    ensures
        r == common(strptr@, matchptr@, start_len as int, max_len as int),
{
    let mut len: u32 = start_len;
    while len < max_len && strptr[len as usize] == matchptr[len as usize]
        invariant
            start_len <= len,
            len <= max_len || len == start_len,
            max_len <= strptr@.len(),
            max_len <= matchptr@.len(),
            common(strptr@, matchptr@, start_len as int, max_len as int) == common(
                strptr@,
                matchptr@,
                len as int,
                max_len as int,
            ),
        decreases max_len - len,
    {
        len = len + 1;
    }
    len
}

/// Initialize a matchfinder table to all MATCHFINDER_INITVAL.
pub fn matchfinder_init(data: &mut [i16])
    ensures
        final(data)@.len() == old(data)@.len(),
        forall|k: int| 0 <= k < final(data)@.len() ==> #[trigger] final(data)@[k] == MATCHFINDER_INITVAL,
{
    let n: usize = data.len();
    let mut k: usize = 0;
    while k < n
        invariant
            k <= n,
            n == data@.len(),
            data@.len() == old(data)@.len(),
            forall|j: int| 0 <= j < k ==> #[trigger] data@[j] == MATCHFINDER_INITVAL,
        decreases n - k,
    {
        data[k] = MATCHFINDER_INITVAL;
        k = k + 1;
    }
}

/// An entry after the window has moved on by its size: the same position, or
/// none if it is no longer in the window.
pub open spec fn rebased(e: i16) -> i16 {
    if e < 0 {
        MATCHFINDER_INITVAL
    } else {
        (e - 32768) as i16
    }
}

/// A table after the window has moved on by its size.
pub open spec fn rebase_tab(tab: Seq<i16>) -> Seq<i16> {
    tab.map_values(|e: i16| rebased(e))
}

/// A table after the window has moved on `n` times.
pub open spec fn slid(tab: Seq<i16>, n: nat) -> Seq<i16>
    decreases n,
{
    if n == 0 {
        tab
    } else {
        slid(rebase_tab(tab), (n - 1) as nat)
    }
}

/// Slide the matchfinder window by MATCHFINDER_WINDOW_SIZE.
///
/// Subtracts WINDOW_SIZE from each entry using saturating arithmetic,
/// clamping to -WINDOW_SIZE (keeping out-of-bounds entries permanently invalid).
pub fn matchfinder_rebase(data: &mut [i16])
    ensures
        final(data)@ == rebase_tab(old(data)@),
{
    let n: usize = data.len();
    let ghost d0 = data@;
    let mut k: usize = 0;
    while k < n
        invariant
            k <= n,
            n == data@.len(),
            d0 == old(data)@,
            data@.len() == d0.len(),
            forall|j: int| 0 <= j < k ==> #[trigger] data@[j] == rebased(d0[j]),
            forall|j: int| k <= j < n ==> #[trigger] data@[j] == d0[j],
        decreases n - k,
    {
        let e: i16 = data[k];
        if e < 0 {
            data[k] = MATCHFINDER_INITVAL;
        } else {
            data[k] = (e as i32 - 32768) as i16;
        }
        k = k + 1;
    }
    assert(data@ =~= rebase_tab(d0));
}

/// Every entry is unused or stands for a position before `next`.
pub open spec fn tab_ok(tab: Seq<i16>, base: int, next: int) -> bool {
    forall|k: int|
        0 <= k < tab.len() ==> (#[trigger] tab[k]) == MATCHFINDER_INITVAL || 0 <= base + tab[k] < next
}

pub proof fn lemma_rebase_ok(tab: Seq<i16>, base: int, next: int)
    requires
        tab_ok(tab, base, next),
    ensures
        tab_ok(rebase_tab(tab), base + 32768, next),
        rebase_tab(tab).len() == tab.len(),
{
    let t = rebase_tab(tab);
    assert forall|k: int| 0 <= k < t.len() implies (#[trigger] t[k]) == MATCHFINDER_INITVAL || 0 <= base
        + 32768 + t[k] < next by {
        assert(t[k] == rebased(tab[k]));
    }
}

/// How often a window at `base` moves on for position `next` to lie in it.
pub open spec fn slides(base: int, next: int) -> nat {
    if next - base >= 32768 {
        ((next - base) / 32768) as nat
    } else {
        0
    }
}

/// Move the window on until position `next` lies in it.
pub fn slide_to(tab: &mut Vec<i16>, in_base_offset: &mut usize, next: usize)
    requires
        *old(in_base_offset) <= next,
    ensures
        final(tab)@ == slid(old(tab)@, slides(*old(in_base_offset) as int, next as int)),
        final(tab)@.len() == old(tab)@.len(),
        *final(in_base_offset) == *old(in_base_offset) + 32768 * slides(
            *old(in_base_offset) as int,
            next as int,
        ),
        *final(in_base_offset) <= next < *final(in_base_offset) + 32768,
        forall|m: int| #[trigger]
            tab_ok(old(tab)@, *old(in_base_offset) as int, m) ==> tab_ok(
                final(tab)@,
                *final(in_base_offset) as int,
                m,
            ),
{
    let ghost t0 = tab@;
    let ghost b0 = *in_base_offset as int;
    let ghost mut k: nat = 0;
    while next - *in_base_offset >= 32768
        invariant
            t0 == old(tab)@,
            b0 == *old(in_base_offset),
            *in_base_offset <= next,
            *in_base_offset == b0 + 32768 * k,
            tab@.len() == t0.len(),
            k <= slides(b0, next as int),
            slid(t0, slides(b0, next as int)) == slid(tab@, (slides(b0, next as int) - k) as nat),
            forall|m: int| #[trigger]
                tab_ok(t0, b0, m) ==> tab_ok(tab@, *in_base_offset as int, m),
        decreases next - *in_base_offset,
    {
        let ghost t1 = tab@;
        let ghost b1 = *in_base_offset as int;
        matchfinder_rebase(tab.as_mut_slice());
        *in_base_offset = *in_base_offset + 32768;
        proof {
            assert forall|m: int| #[trigger] tab_ok(t0, b0, m) implies tab_ok(
                tab@,
                *in_base_offset as int,
                m,
            ) by {
                lemma_rebase_ok(t1, b1, m);
            }
            k = k + 1;
        }
    }
}

/// The position of an entry.
#[inline]
pub fn entry_pos(in_base: usize, e: i16) -> (r: usize)
    requires
        0 <= in_base + e <= usize::MAX,
    ensures
        r == in_base + e,
{
    if e >= 0 {
        in_base + e as usize
    } else {
        in_base - (-(e as i32)) as usize
    }
}

/// The length of the match at `next` with the position of entry `e`: 0 if the
/// entry lies outside the window or the first four bytes differ, else as far as
/// the bytes agree, but not past `max`.
pub open spec fn probe(h: Seq<u8>, base: int, next: int, e: int, max: int) -> int {
    if e <= next - base - 32768 || fast_bytes::le32(h, base + e) != fast_bytes::le32(h, next) {
        0
    } else {
        common(h.skip(next), h.skip(base + e), 4, max)
    }
}

/// A match that is long enough is a match.
pub proof fn lemma_probe(h: Seq<u8>, base: int, next: int, e: int, max: int)
    requires
        0 <= base + e < next,
        base <= next,
        next + max <= h.len(),
        4 <= max,
    ensures
        ({
            let r = probe(h, base, next, e, max);
            r != 0 ==> {
                &&& 4 <= r <= max
                &&& items::is_match(h, next, r, next - base - e)
                &&& next - base - e < 32768
            }
        }),
{
    let q = base + e;
    let r = probe(h, base, next, e, max);
    if r != 0 {
        lemma_common(h.skip(next), h.skip(q), 4, max);
        fast_bytes::lemma_le32_eq(h, q, h, next);
        assert forall|i: int| next <= i < next + r implies #[trigger] h[i] == h[i - (next - q)] by {
            let j = i - next;
            if j >= 4 {
                assert(h.skip(next)[j] == h.skip(q)[j]);
            } else {
                assert(h[q + j] == h[next + j]);
            }
        }
    }
}

/// The match at `in_next` with the position of an entry: its length and offset,
/// or zeros.
#[inline]
pub fn try_entry(input: &[u8], in_base: usize, in_next: usize, e: i16, max_len: u32) -> (r: (
    u32,
    u32,
))
    requires
        e == MATCHFINDER_INITVAL || 0 <= in_base + e < in_next,
        in_base <= in_next < in_base + 32768,
        in_next + max_len <= input@.len(),
        4 <= max_len,
    ensures
        r.0 == probe(input@, in_base as int, in_next as int, e as int, max_len as int),
        r.1 == if r.0 == 0 {
            0
        } else {
            in_next - in_base - e
        },
        r.0 != 0 ==> 4 <= r.0 <= max_len && 1 <= r.1 < 32768 && items::is_match(
            input@,
            in_next as int,
            r.0 as int,
            r.1 as int,
        ),
{
    let cur: i32 = (in_next - in_base) as i32;
    if e as i32 <= cur - 32768 {
        return (0, 0);
    }
    let pos: usize = entry_pos(in_base, e);
    if load_u32_le(input, pos) != load_u32_le(input, in_next) {
        return (0, 0);
    }
    proof {
        lemma_probe(input@, in_base as int, in_next as int, e as int, max_len as int);
        lemma_common(input@.skip(in_next as int), input@.skip(pos as int), 4, max_len as int);
    }
    let n: usize = input.len();
    let a: &[u8] = vstd::slice::slice_subrange(input, in_next, n);
    let b: &[u8] = vstd::slice::slice_subrange(input, pos, n);
    assert(a@ =~= input@.skip(in_next as int));
    assert(b@ =~= input@.skip(pos as int));
    let len: u32 = lz_extend(a, b, 4, max_len);
    (len, (in_next - pos) as u32)
}

/// A hash of the four bytes at a position.
#[inline]
pub fn hash_at(input: &[u8], pos: usize, order: u32) -> (r: u32)
    requires
        pos + 4 <= input@.len(),
        1 <= order <= 32,
    ensures
        r == hash_of(fast_bytes::le32(input@, pos as int), order as nat),
        r < pow2(order as nat),
{
    lz_hash(load_u32_le(input, pos), order)
}

/// What a hash matchfinder knows: the entries of its table, the position that they are
/// relative to, and the hash at the next position.
pub struct Memory {
    pub tab: Seq<i16>,
    pub base: int,
    pub hash: int,
}

/// A matchfinder over a hash table of the first four bytes.
pub trait HashMatchfinder: Sized {
    /// The entries of the hash table.
    spec fn table(&self) -> Seq<i16>;

    /// How many entries the hash table has.
    spec fn table_size() -> nat;

    /// The length and the distance of the match that is found at `next`, both 0 if none is.
    spec fn found_in(m: Memory, h: Seq<u8>, next: int, max: int, nice: int) -> (int, int);

    /// What is known after a search at `next`.
    spec fn after_search(m: Memory, h: Seq<u8>, next: int) -> Memory;

    /// What is known after `count` bytes from `next` on have been skipped.
    spec fn after_skip(m: Memory, h: Seq<u8>, next: int, count: int) -> Memory;

    /// The table has its size, and every entry of it is unused or stands for a
    /// position before `next`.
    spec fn wf(&self, base: int, next: int) -> bool;

    /// The number of bits of a hash.
    spec fn order_of() -> nat;

    /// The number of bits of a hash.
    fn hash_order() -> (r: u32)
        ensures
            r == Self::order_of(),
            1 <= r <= 32,
    ;

    /// Positions before `next` are positions before what comes later.
    proof fn lemma_wf_later(&self, base: int, next: int, later: int)
        requires
            self.wf(base, next),
            next <= later,
        ensures
            self.wf(base, later),
    ;

    /// Forget all positions.
    fn init(&mut self)
        requires
            exists|b: int, n: int| old(self).wf(b, n),
        ensures
            forall|b: int, n: int| #[trigger] final(self).wf(b, n),
            final(self).table() == Seq::new(Self::table_size(), |k: int| MATCHFINDER_INITVAL),
    ;

    /// Find the longest match at `in_next`, and remember the position.
    fn longest_match(
        &mut self,
        input: &[u8],
        in_base_offset: &mut usize,
        in_next: usize,
        max_len: u32,
        nice_len: u32,
        next_hash: &mut u32,
    ) -> (r: (u32, u32))
        requires
            old(self).wf(*old(in_base_offset) as int, in_next as int),
            *old(in_base_offset) <= in_next,
            in_next + max_len <= input@.len(),
            5 <= max_len,
            *old(next_hash) < pow2(Self::order_of()),
        ensures
            final(self).wf(*final(in_base_offset) as int, in_next + 1),
            *final(in_base_offset) <= in_next,
            *final(next_hash) < pow2(Self::order_of()),
            r.0 != 0 ==> 4 <= r.0 <= max_len && 1 <= r.1 < 32768 && items::is_match(
                input@,
                in_next as int,
                r.0 as int,
                r.1 as int,
            ),
            ({
                let m = Memory {
                    tab: old(self).table(),
                    base: *old(in_base_offset) as int,
                    hash: *old(next_hash) as int,
                };
                &&& (r.0 as int, r.1 as int) == Self::found_in(
                    m,
                    input@,
                    in_next as int,
                    max_len as int,
                    nice_len as int,
                )
                &&& Self::after_search(m, input@, in_next as int) == (Memory {
                    tab: final(self).table(),
                    base: *final(in_base_offset) as int,
                    hash: *final(next_hash) as int,
                })
            }),
    ;

    /// Skip `count` bytes, remembering positions among them; none where the input ends
    /// less than five bytes behind them.
    fn skip_bytes(
        &mut self,
        input: &[u8],
        in_base_offset: &mut usize,
        in_next: usize,
        count: u32,
        next_hash: &mut u32,
    )
        requires
            old(self).wf(*old(in_base_offset) as int, in_next as int),
            *old(in_base_offset) <= in_next,
            in_next <= input@.len(),
            in_next + count + 5 <= input@.len() ==> count <= 32768,
            *old(next_hash) < pow2(Self::order_of()),
        ensures
            final(self).wf(*final(in_base_offset) as int, in_next + count),
            *final(in_base_offset) <= in_next + count,
            *final(next_hash) < pow2(Self::order_of()),
            Self::after_skip(
                Memory {
                    tab: old(self).table(),
                    base: *old(in_base_offset) as int,
                    hash: *old(next_hash) as int,
                },
                input@,
                in_next as int,
                count as int,
            ) == (Memory {
                tab: final(self).table(),
                base: *final(in_base_offset) as int,
                hash: *final(next_hash) as int,
            }),
    ;
}

} // verus!
