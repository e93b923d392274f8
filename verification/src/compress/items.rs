//! Parsing data into literals and matches.
//!
//! An item is a pair of a length and a distance; a literal has length 1 and
//! distance 0. A parse of a block is a sequence of items that covers it.

use crate::codes;
use crate::constants::{
    DEFLATE_LENGTH_BASE, DEFLATE_LENGTH_EXTRA_BITS, DEFLATE_OFFSET_BASE, DEFLATE_OFFSET_EXTRA_BITS,
};
use crate::stream;
use vstd::arithmetic::power2::*;
use vstd::prelude::*;

verus! {

/// The last slot up to `s` whose base is not above `len`.
pub open spec fn length_slot_upto(len: int, s: int) -> int
    decreases s,
{
    if s <= 0 {
        0
    } else if DEFLATE_LENGTH_BASE@[s] <= len {
        s
    } else {
        length_slot_upto(len, s - 1)
    }
}

/// The slot of a match length.
pub open spec fn length_slot_of(len: int) -> int {
    length_slot_upto(len, 28)
}

/// The last slot up to `s` whose base is not above `dist`.
pub open spec fn offset_slot_upto(dist: int, s: int) -> int
    decreases s,
{
    if s <= 0 {
        0
    } else if DEFLATE_OFFSET_BASE@[s] <= dist {
        s
    } else {
        offset_slot_upto(dist, s - 1)
    }
}

/// The slot of a match offset.
pub open spec fn offset_slot_of(dist: int) -> int {
    offset_slot_upto(dist, 29)
}

proof fn lemma_length_span(s: int)
    requires
        0 <= s < 28,
    ensures
        DEFLATE_LENGTH_BASE@[s] < DEFLATE_LENGTH_BASE@[s + 1],
        DEFLATE_LENGTH_BASE@[s + 1] <= DEFLATE_LENGTH_BASE@[s] + pow2(
            DEFLATE_LENGTH_EXTRA_BITS@[s] as nat,
        ),
{
    lemma2_to64();
}

proof fn lemma_offset_span(s: int)
    requires
        0 <= s < 30,
    ensures
        s < 29 ==> DEFLATE_OFFSET_BASE@[s] < DEFLATE_OFFSET_BASE@[s + 1],
        s < 29 ==> DEFLATE_OFFSET_BASE@[s + 1] == DEFLATE_OFFSET_BASE@[s] + pow2(
            DEFLATE_OFFSET_EXTRA_BITS@[s] as nat,
        ),
        s == 29 ==> DEFLATE_OFFSET_BASE@[s] + pow2(DEFLATE_OFFSET_EXTRA_BITS@[s] as nat) == 32769,
{
    lemma2_to64();
}

proof fn lemma_length_mono(s: int, t: int)
    requires
        0 <= s <= t < 29,
    ensures
        DEFLATE_LENGTH_BASE@[s] <= DEFLATE_LENGTH_BASE@[t],
    decreases t - s,
{
    if s < t {
        lemma_length_span(s);
        lemma_length_mono(s + 1, t);
    }
}

proof fn lemma_offset_mono(s: int, t: int)
    requires
        0 <= s <= t < 30,
    ensures
        DEFLATE_OFFSET_BASE@[s] <= DEFLATE_OFFSET_BASE@[t],
    decreases t - s,
{
    if s < t {
        lemma_offset_span(s);
        lemma_offset_mono(s + 1, t);
    }
}

proof fn lemma_length_slot_is(len: int, r: int, s: int)
    requires
        0 <= r <= s < 29,
        DEFLATE_LENGTH_BASE@[r] <= len,
        r < 28 ==> len < DEFLATE_LENGTH_BASE@[r + 1],
    ensures
        length_slot_upto(len, s) == r,
    decreases s,
{
    if r < s {
        lemma_length_mono(r + 1, s);
        lemma_length_slot_is(len, r, s - 1);
    }
}

proof fn lemma_offset_slot_is(dist: int, r: int, s: int)
    requires
        0 <= r <= s < 30,
        DEFLATE_OFFSET_BASE@[r] <= dist,
        r < 29 ==> dist < DEFLATE_OFFSET_BASE@[r + 1],
    ensures
        offset_slot_upto(dist, s) == r,
    decreases s,
{
    if r < s {
        lemma_offset_mono(r + 1, s);
        lemma_offset_slot_is(dist, r, s - 1);
    }
}

/// Get the length slot for a given match length (3..=258).
pub fn get_length_slot(len: u32) -> (r: u32)
    requires
        3 <= len <= 258,
    ensures
        r == length_slot_of(len as int),
        r < 29,
        DEFLATE_LENGTH_BASE@[r as int] <= len,
        len - DEFLATE_LENGTH_BASE@[r as int] < pow2(DEFLATE_LENGTH_EXTRA_BITS@[r as int] as nat),
{
    let mut lo: usize = 0;
    let mut hi: usize = 29;
    while hi - lo > 1
        invariant
            lo < hi <= 29,
            3 <= len <= 258,
            DEFLATE_LENGTH_BASE@[lo as int] <= len,
            hi < 29 ==> len < DEFLATE_LENGTH_BASE@[hi as int],
        decreases hi - lo,
    {
        let mid: usize = (lo + hi) / 2;
        if DEFLATE_LENGTH_BASE[mid] as u32 <= len {
            lo = mid;
        } else {
            hi = mid;
        }
    }
    proof {
        lemma_length_slot_is(len as int, lo as int, 28);
        lemma2_to64();
        if lo < 28 {
            lemma_length_span(lo as int);
        }
    }
    lo as u32
}

/// Get the offset slot for a given match offset (1..=32768).
pub fn get_offset_slot(offset: u32) -> (r: u32)
    requires
        1 <= offset <= 32768,
    ensures
        r == offset_slot_of(offset as int),
        r < 30,
        DEFLATE_OFFSET_BASE@[r as int] <= offset,
        offset - DEFLATE_OFFSET_BASE@[r as int] < pow2(DEFLATE_OFFSET_EXTRA_BITS@[r as int] as nat),
{
    let mut lo: usize = 0;
    let mut hi: usize = 30;
    while hi - lo > 1
        invariant
            lo < hi <= 30,
            1 <= offset <= 32768,
            DEFLATE_OFFSET_BASE@[lo as int] <= offset,
            hi < 30 ==> offset < DEFLATE_OFFSET_BASE@[hi as int],
        decreases hi - lo,
    {
        let mid: usize = (lo + hi) / 2;
        if DEFLATE_OFFSET_BASE[mid] <= offset {
            lo = mid;
        } else {
            hi = mid;
        }
    }
    proof {
        lemma_offset_slot_is(offset as int, lo as int, 29);
        lemma_offset_span(lo as int);
    }
    lo as u32
}

/// The slots of all lengths and offsets exist and hold them.
pub proof fn lemma_slots(len: int, dist: int)
    ensures
        3 <= len <= 258 ==> {
            let s = length_slot_of(len);
            &&& 0 <= s < 29
            &&& DEFLATE_LENGTH_BASE@[s] <= len
            &&& len - DEFLATE_LENGTH_BASE@[s] < pow2(DEFLATE_LENGTH_EXTRA_BITS@[s] as nat)
        },
        1 <= dist <= 32768 ==> {
            let s = offset_slot_of(dist);
            &&& 0 <= s < 30
            &&& DEFLATE_OFFSET_BASE@[s] <= dist
            &&& dist - DEFLATE_OFFSET_BASE@[s] < pow2(DEFLATE_OFFSET_EXTRA_BITS@[s] as nat)
        },
{
    if 3 <= len <= 258 {
        lemma_length_slot_found(len, 28);
    }
    if 1 <= dist <= 32768 {
        lemma_offset_slot_found(dist, 29);
    }
}

proof fn lemma_length_slot_found(len: int, s: int)
    requires
        3 <= len <= 258,
        0 <= s < 29,
        s < 28 ==> len < DEFLATE_LENGTH_BASE@[s + 1],
    ensures
        ({
            let r = length_slot_upto(len, s);
            &&& 0 <= r < 29
            &&& DEFLATE_LENGTH_BASE@[r] <= len
            &&& len - DEFLATE_LENGTH_BASE@[r] < pow2(DEFLATE_LENGTH_EXTRA_BITS@[r] as nat)
        }),
    decreases s,
{
    lemma2_to64();
    if s < 28 {
        lemma_length_span(s);
    }
    if s > 0 && DEFLATE_LENGTH_BASE@[s] > len {
        lemma_length_slot_found(len, s - 1);
    }
}

proof fn lemma_offset_slot_found(dist: int, s: int)
    requires
        1 <= dist <= 32768,
        0 <= s < 30,
        s < 29 ==> dist < DEFLATE_OFFSET_BASE@[s + 1],
    ensures
        ({
            let r = offset_slot_upto(dist, s);
            &&& 0 <= r < 30
            &&& DEFLATE_OFFSET_BASE@[r] <= dist
            &&& dist - DEFLATE_OFFSET_BASE@[r] < pow2(DEFLATE_OFFSET_EXTRA_BITS@[r] as nat)
        }),
    decreases s,
{
    lemma_offset_span(s);
    if s > 0 && DEFLATE_OFFSET_BASE@[s] > dist {
        lemma_offset_slot_found(dist, s - 1);
    }
}

/// The `len` bytes at `p` repeat those `dist` places back.
pub open spec fn is_match(h: Seq<u8>, p: int, len: int, dist: int) -> bool {
    &&& 1 <= dist <= p
    &&& 0 <= len
    &&& p + len <= h.len()
    &&& forall|i: int| p <= i < p + len ==> #[trigger] h[i] == h[i - dist]
}

/// An item that may stand at position `p` of the data `h`.
pub open spec fn item_ok(h: Seq<u8>, p: int, it: (int, int)) -> bool {
    if it.1 == 0 {
        it.0 == 1 && 0 <= p < h.len()
    } else {
        3 <= it.0 <= 258 && it.1 <= 32768 && is_match(h, p, it.0, it.1)
    }
}

/// Where a parse that starts at `base` ends.
pub open spec fn end_of(base: int, its: Seq<(int, int)>) -> int
    decreases its.len(),
{
    if its.len() == 0 {
        base
    } else {
        end_of(base, its.drop_last()) + its.last().0
    }
}

/// The items, one after the other from position `base` on, stand for the data.
pub open spec fn parse_ok(h: Seq<u8>, base: int, its: Seq<(int, int)>) -> bool
    decreases its.len(),
{
    if its.len() == 0 {
        true
    } else {
        parse_ok(h, base, its.drop_last()) && item_ok(h, end_of(base, its.drop_last()), its.last())
    }
}

/// The literal/length symbol of an item at position `p`.
pub open spec fn litlen_sym(h: Seq<u8>, p: int, it: (int, int)) -> int {
    if it.1 == 0 {
        h[p] as int
    } else {
        257 + length_slot_of(it.0)
    }
}

/// The number of bits of an item.
pub open spec fn item_cost(
    h: Seq<u8>,
    p: int,
    it: (int, int),
    ll: Seq<u8>,
    ol: Seq<u8>,
) -> int {
    if it.1 == 0 {
        ll[h[p] as int] as int
    } else {
        let s = length_slot_of(it.0);
        let o = offset_slot_of(it.1);
        ll[257 + s] + DEFLATE_LENGTH_EXTRA_BITS@[s] + ol[o] + DEFLATE_OFFSET_EXTRA_BITS@[o]
    }
}

/// The number of bits of a parse.
pub open spec fn cost(
    h: Seq<u8>,
    base: int,
    its: Seq<(int, int)>,
    ll: Seq<u8>,
    ol: Seq<u8>,
) -> int
    decreases its.len(),
{
    if its.len() == 0 {
        0
    } else {
        cost(h, base, its.drop_last(), ll, ol) + item_cost(
            h,
            end_of(base, its.drop_last()),
            its.last(),
            ll,
            ol,
        )
    }
}

/// How often the literal/length symbol `s` occurs in a parse.
pub open spec fn litlen_count(h: Seq<u8>, base: int, its: Seq<(int, int)>, s: int) -> int
    decreases its.len(),
{
    if its.len() == 0 {
        0
    } else {
        litlen_count(h, base, its.drop_last(), s) + if litlen_sym(
            h,
            end_of(base, its.drop_last()),
            its.last(),
        ) == s {
            1int
        } else {
            0
        }
    }
}

/// How often the offset symbol `s` occurs in a parse.
pub open spec fn offset_count(its: Seq<(int, int)>, s: int) -> int
    decreases its.len(),
{
    if its.len() == 0 {
        0
    } else {
        offset_count(its.drop_last(), s) + if its.last().1 != 0 && offset_slot_of(its.last().1) == s {
            1int
        } else {
            0
        }
    }
}

/// The extra bits of a literal/length symbol.
pub open spec fn litlen_extra(s: int) -> int {
    if 257 <= s < 286 {
        DEFLATE_LENGTH_EXTRA_BITS@[s - 257] as int
    } else {
        0
    }
}

/// The sum over the first `n` literal/length symbols of their occurrences times
/// their bits.
pub open spec fn litlen_sum(
    h: Seq<u8>,
    base: int,
    its: Seq<(int, int)>,
    ll: Seq<u8>,
    n: nat,
) -> int
    decreases n,
{
    if n == 0 {
        0
    } else {
        litlen_sum(h, base, its, ll, (n - 1) as nat) + litlen_count(h, base, its, n - 1) * (ll[n - 1]
            + litlen_extra(n - 1))
    }
}

/// The sum over the first `n` offset symbols of their occurrences times their bits.
pub open spec fn offset_sum(its: Seq<(int, int)>, ol: Seq<u8>, n: nat) -> int
    decreases n,
{
    if n == 0 {
        0
    } else {
        offset_sum(its, ol, (n - 1) as nat) + offset_count(its, n - 1) * (ol[n - 1]
            + DEFLATE_OFFSET_EXTRA_BITS@[n - 1])
    }
}

proof fn lemma_litlen_sum_step(
    h: Seq<u8>,
    base: int,
    its: Seq<(int, int)>,
    ll: Seq<u8>,
    n: nat,
)
    requires
        its.len() > 0,
    ensures
        ({
            let s = litlen_sym(h, end_of(base, its.drop_last()), its.last());
            litlen_sum(h, base, its, ll, n) == litlen_sum(h, base, its.drop_last(), ll, n) + if 0
                <= s < n {
                ll[s] + litlen_extra(s)
            } else {
                0
            }
        }),
    decreases n,
{
    if n > 0 {
        lemma_litlen_sum_step(h, base, its, ll, (n - 1) as nat);
        let s = litlen_sym(h, end_of(base, its.drop_last()), its.last());
        let w = ll[n - 1] + litlen_extra(n - 1);
        let c = litlen_count(h, base, its.drop_last(), n - 1);
        assert((c + 1) * w == c * w + w) by (nonlinear_arith);
    }
}

proof fn lemma_offset_sum_step(its: Seq<(int, int)>, ol: Seq<u8>, n: nat)
    requires
        its.len() > 0,
    ensures
        ({
            let s = offset_slot_of(its.last().1);
            offset_sum(its, ol, n) == offset_sum(its.drop_last(), ol, n) + if its.last().1 != 0 && 0
                <= s < n {
                ol[s] + DEFLATE_OFFSET_EXTRA_BITS@[s]
            } else {
                0
            }
        }),
    decreases n,
{
    if n > 0 {
        lemma_offset_sum_step(its, ol, (n - 1) as nat);
        let w = ol[n - 1] + DEFLATE_OFFSET_EXTRA_BITS@[n - 1];
        let c = offset_count(its.drop_last(), n - 1);
        assert((c + 1) * w == c * w + w) by (nonlinear_arith);
    }
}

proof fn lemma_zero_sums(h: Seq<u8>, base: int, its: Seq<(int, int)>, lens: Seq<u8>, n: nat)
    requires
        its.len() == 0,
    ensures
        litlen_sum(h, base, its, lens, n) == 0,
        offset_sum(its, lens, n) == 0,
    decreases n,
{
    if n > 0 {
        lemma_zero_sums(h, base, its, lens, (n - 1) as nat);
        assert(0 * (lens[n - 1] + litlen_extra(n - 1)) == 0);
        assert(0 * (lens[n - 1] + DEFLATE_OFFSET_EXTRA_BITS@[n - 1]) == 0);
    }
}

/// The bits of a parse follow from how often each symbol occurs.
pub proof fn lemma_cost_is_sum(
    h: Seq<u8>,
    base: int,
    its: Seq<(int, int)>,
    ll: Seq<u8>,
    ol: Seq<u8>,
)
    requires
        parse_ok(h, base, its),
    ensures
        cost(h, base, its, ll, ol) == litlen_sum(h, base, its, ll, 288) + offset_sum(its, ol, 32),
    decreases its.len(),
{
    if its.len() == 0 {
        lemma_zero_sums(h, base, its, ll, 288);
        lemma_zero_sums(h, base, its, ol, 32);
    } else {
        lemma_cost_is_sum(h, base, its.drop_last(), ll, ol);
        lemma_litlen_sum_step(h, base, its, ll, 288);
        lemma_offset_sum_step(its, ol, 32);
        lemma_slots(its.last().0, its.last().1);
    }
}

/// A parse is no longer than the data it covers.
pub proof fn lemma_parse_len(h: Seq<u8>, base: int, its: Seq<(int, int)>)
    requires
        parse_ok(h, base, its),
        0 <= base <= h.len(),
    ensures
        base + its.len() <= end_of(base, its) <= h.len(),
        forall|s: int| 0 <= #[trigger] litlen_count(h, base, its, s) <= its.len(),
        forall|s: int| 0 <= #[trigger] offset_count(its, s) <= its.len(),
    decreases its.len(),
{
    if its.len() > 0 {
        let d = its.drop_last();
        lemma_parse_len(h, base, d);
        assert forall|s: int| 0 <= #[trigger] litlen_count(h, base, its, s) <= its.len() by {
            assert(litlen_count(h, base, d, s) >= 0);
        }
        assert forall|s: int| 0 <= #[trigger] offset_count(its, s) <= its.len() by {
            assert(offset_count(d, s) >= 0);
        }
    }
}

/// Copying a match of the data reproduces the data.
pub proof fn lemma_copy_match(h: Seq<u8>, p: int, len: nat, dist: int)
    requires
        is_match(h, p, len as int, dist),
    ensures
        stream::copy_match(h.take(p), dist, len) == h.take(p + len),
    decreases len,
{
    if len == 0 {
    } else {
        lemma_copy_match(h, p, (len - 1) as nat, dist);
        let o = stream::copy_match(h.take(p), dist, (len - 1) as nat);
        let q = p + len - 1;
        assert(o == h.take(q));
        assert(h[q] == h[q - dist]);
        assert(o.push(o[o.len() - dist]) =~= h.take(p + len));
    }
}

/// Only literals, length symbols and offset symbols are counted.
pub proof fn lemma_counts_range(h: Seq<u8>, base: int, its: Seq<(int, int)>)
    requires
        parse_ok(h, base, its),
    ensures
        forall|s: int|
            #[trigger] litlen_count(h, base, its, s) != 0 ==> 0 <= s < 286 && s != 256,
        forall|s: int| #[trigger] offset_count(its, s) != 0 ==> 0 <= s < 30,
    decreases its.len(),
{
    if its.len() > 0 {
        let d = its.drop_last();
        let it = its.last();
        lemma_counts_range(h, base, d);
        lemma_slots(it.0, it.1);
        assert forall|s: int| #[trigger] litlen_count(h, base, its, s) != 0 implies 0 <= s < 286 && s
            != 256 by {
            if litlen_count(h, base, d, s) == 0 {
                assert(litlen_sym(h, end_of(base, d), it) == s);
            }
        }
        assert forall|s: int| #[trigger] offset_count(its, s) != 0 implies 0 <= s < 30 by {
            if offset_count(d, s) == 0 {
                assert(offset_slot_of(it.1) == s);
            }
        }
    }
}

/// An item before a parse.
pub proof fn lemma_parse_cons(h: Seq<u8>, p: int, it: (int, int), rest: Seq<(int, int)>)
    requires
        item_ok(h, p, it),
        parse_ok(h, p + it.0, rest),
    ensures
        parse_ok(h, p, seq![it] + rest),
        end_of(p, seq![it] + rest) == end_of(p + it.0, rest),
    decreases rest.len(),
{
    let all = seq![it] + rest;
    if rest.len() == 0 {
        assert(all.drop_last() =~= Seq::empty());
        assert(all.last() == it);
        assert(end_of(p, all.drop_last()) == p);
        assert(parse_ok(h, p, all.drop_last()));
    } else {
        lemma_parse_cons(h, p, it, rest.drop_last());
        assert(all.drop_last() =~= seq![it] + rest.drop_last());
        assert(all.last() == rest.last());
    }
}

/// One more item of a parse.
pub proof fn lemma_counts_step(h: Seq<u8>, base: int, its: Seq<(int, int)>, k: int)
    requires
        0 <= k < its.len(),
    ensures
        end_of(base, its.take(k + 1)) == end_of(base, its.take(k)) + its[k].0,
        forall|s: int|
            #[trigger] litlen_count(h, base, its.take(k + 1), s) == litlen_count(
                h,
                base,
                its.take(k),
                s,
            ) + if litlen_sym(h, end_of(base, its.take(k)), its[k]) == s {
                1int
            } else {
                0
            },
        forall|s: int|
            #[trigger] offset_count(its.take(k + 1), s) == offset_count(its.take(k), s) + if its[k].1
                != 0 && offset_slot_of(its[k].1) == s {
                1int
            } else {
                0
            },
{
    assert(its.take(k + 1).drop_last() =~= its.take(k));
    assert(its.take(k + 1).last() == its[k]);
}

/// A parse behind another one.
pub proof fn lemma_parse_concat(
    h: Seq<u8>,
    base: int,
    a: Seq<(int, int)>,
    b: Seq<(int, int)>,
    ll: Seq<u8>,
    ol: Seq<u8>,
)
    requires
        parse_ok(h, base, a),
        parse_ok(h, end_of(base, a), b),
    ensures
        parse_ok(h, base, a + b),
        end_of(base, a + b) == end_of(end_of(base, a), b),
        cost(h, base, a + b, ll, ol) == cost(h, base, a, ll, ol) + cost(
            h,
            end_of(base, a),
            b,
            ll,
            ol,
        ),
    decreases b.len(),
{
    if b.len() == 0 {
        assert(a + b =~= a);
    } else {
        lemma_parse_concat(h, base, a, b.drop_last(), ll, ol);
        assert((a + b).drop_last() =~= a + b.drop_last());
        assert((a + b).last() == b.last());
    }
}

/// A parse takes at most 16 bits for each byte.
pub proof fn lemma_cost_bound(
    h: Seq<u8>,
    base: int,
    its: Seq<(int, int)>,
    ll: Seq<u8>,
    ol: Seq<u8>,
)
    requires
        parse_ok(h, base, its),
        ll.len() == 288,
        ol.len() == 32,
        codes::bounded(ll),
        codes::bounded(ol),
    ensures
        0 <= cost(h, base, its, ll, ol) <= 16 * (end_of(base, its) - base),
    decreases its.len(),
{
    if its.len() > 0 {
        let d = its.drop_last();
        let it = its.last();
        lemma_cost_bound(h, base, d, ll, ol);
        lemma_slots(it.0, it.1);
        if it.1 == 0 {
            assert(ll[h[end_of(base, d)] as int] <= 15);
        } else {
            let s = length_slot_of(it.0);
            let o = offset_slot_of(it.1);
            assert(ll[257 + s] <= 15);
            assert(ol[o] <= 15);
            assert(DEFLATE_LENGTH_EXTRA_BITS@[s] <= 5);
            assert(DEFLATE_OFFSET_EXTRA_BITS@[o] <= 13);
        }
    }
}

} // verus!
