//! Adler-32 checksum.

use crate::arith::min_usize;
use vstd::prelude::*;

verus! {

/// The Adler-32 divisor (largest prime less than 2^16).
pub const DIVISOR: u32 = 65521;

/// Number of bytes that are summed up between two reductions.
pub const MAX_CHUNK_LEN: usize = 5552;

/// The two sums after `data`, from the sums `s`: the first adds up the bytes,
/// the second adds up the values of the first, both modulo the divisor.
pub open spec fn adler_sums(s: (int, int), data: Seq<u8>) -> (int, int)
    decreases data.len(),
{
    if data.len() == 0 {
        s
    } else {
        let t = adler_sums(s, data.drop_last());
        let a = (t.0 + data.last()) % (DIVISOR as int);
        (a, (t.1 + a) % (DIVISOR as int))
    }
}

/// The Adler-32 checksum of `data`, starting from `adler`.
pub open spec fn adler32_spec(adler: u32, data: Seq<u8>) -> int {
    let s = adler_sums((adler as int % 65536, adler as int / 65536), data);
    s.1 * 65536 + s.0
}

/// The sums without reduction.
spec fn plain_sums(s: (int, int), data: Seq<u8>) -> (int, int)
    decreases data.len(),
{
    if data.len() == 0 {
        s
    } else {
        let t = plain_sums(s, data.drop_last());
        let a = t.0 + data.last();
        (a, t.1 + a)
    }
}

proof fn lemma_plain(s: (int, int), data: Seq<u8>)
    requires
        data.len() > 0,
    ensures
        adler_sums(s, data).0 == plain_sums(s, data).0 % (DIVISOR as int),
        adler_sums(s, data).1 == plain_sums(s, data).1 % (DIVISOR as int),
    decreases data.len(),
{
    let d = data.drop_last();
    let b = data.last() as int;
    let u = plain_sums(s, d);
    let t = adler_sums(s, d);
    if d.len() > 0 {
        lemma_plain(s, d);
        assert((u.0 % 65521 + b) % 65521 == (u.0 + b) % 65521);
        assert((u.1 % 65521 + (u.0 + b) % 65521) % 65521 == (u.1 + (u.0 + b)) % 65521);
    } else {
        assert((u.1 + (u.0 + b) % 65521) % 65521 == (u.1 + (u.0 + b)) % 65521);
    }
}

/// Running the sums over two parts one after the other is running them over the whole.
pub proof fn lemma_adler_concat(s: (int, int), a: Seq<u8>, b: Seq<u8>)
    ensures
        adler_sums(s, a + b) == adler_sums(adler_sums(s, a), b),
    decreases b.len(),
{
    if b.len() == 0 {
        assert(a + b =~= a);
    } else {
        lemma_adler_concat(s, a, b.drop_last());
        assert((a + b).drop_last() =~= a + b.drop_last());
        assert((a + b).last() == b.last());
    }
}

pub proof fn lemma_adler_range(s: (int, int), data: Seq<u8>)
    requires
        0 <= s.0 < 65536,
        0 <= s.1 < 65536,
    ensures
        0 <= adler_sums(s, data).0 < 65536,
        0 <= adler_sums(s, data).1 < 65536,
    decreases data.len(),
{
    if data.len() > 0 {
        lemma_adler_range(s, data.drop_last());
    }
}

/// Continuing a checksum over more data gives the checksum of all of it.
pub proof fn law_adler32_incremental(adler: u32, a: Seq<u8>, b: Seq<u8>, mid: u32)
    requires
        mid == adler32_spec(adler, a),
    ensures
        adler32_spec(mid, b) == adler32_spec(adler, a + b),
{
    let s = (adler as int % 65536, adler as int / 65536);
    lemma_adler_concat(s, a, b);
    lemma_adler_range(s, a);
    let t = adler_sums(s, a);
    assert(mid as int % 65536 == t.0);
    assert(mid as int / 65536 == t.1);
}

/// Add a chunk of data to the two sums and reduce them.
fn adler32_chunk_scalar(s1: u32, s2: u32, data: &[u8], from: usize, to: usize) -> (r: (u32, u32))
    requires
        s1 < 65536,
        s2 < 65536,
        from < to <= data@.len(),
        to - from <= MAX_CHUNK_LEN,
    ensures
        (r.0 as int, r.1 as int) == adler_sums(
            (s1 as int, s2 as int),
            data@.subrange(from as int, to as int),
        ),
        r.0 < 65536,
        r.1 < 65536,
{
    let mut a: u64 = s1 as u64;
    let mut b: u64 = s2 as u64;
    let mut i: usize = from;
    let ghost s = (s1 as int, s2 as int);
    proof {
        assert(data@.subrange(from as int, from as int) =~= Seq::empty());
    }
    while i < to
        invariant
            from <= i <= to <= data@.len(),
            to - from <= MAX_CHUNK_LEN,
            a <= 65535 + 255 * (i - from),
            b <= 65535 + 1_600_000 * (i - from),
            (a as int, b as int) == plain_sums(s, data@.subrange(from as int, i as int)),
        decreases to - i,
    {
        proof {
            let d = data@.subrange(from as int, i + 1);
            assert(d.drop_last() =~= data@.subrange(from as int, i as int));
        }
        a = a + data[i] as u64;
        b = b + a;
        i = i + 1;
    }
    proof {
        lemma_plain(s, data@.subrange(from as int, to as int));
    }
    ((a % DIVISOR as u64) as u32, (b % DIVISOR as u64) as u32)
}

/// Compute the Adler-32 checksum of `data`, starting from `adler`.
///
/// To compute from scratch, pass `adler = 1` (the Adler-32 initial value).
/// To continue a running checksum, pass the previous return value.
pub fn adler32(adler: u32, data: &[u8]) -> (r: u32)
    ensures
        r == adler32_spec(adler, data@),
{
    let mut s1: u32 = adler % 65536;
    let mut s2: u32 = adler / 65536;
    let n: usize = data.len();
    let mut i: usize = 0;
    let ghost s = (s1 as int, s2 as int);
    proof {
        assert(data@.take(0) =~= Seq::empty());
    }
    while i < n
        invariant
            i <= n == data@.len(),
            s1 < 65536,
            s2 < 65536,
            (s1 as int, s2 as int) == adler_sums(s, data@.take(i as int)),
        decreases n - i,
    {
        let to: usize = i + min_usize(n - i, MAX_CHUNK_LEN);
        let r: (u32, u32) = adler32_chunk_scalar(s1, s2, data, i, to);
        proof {
            lemma_adler_concat(s, data@.take(i as int), data@.subrange(i as int, to as int));
            assert(data@.take(i as int) + data@.subrange(i as int, to as int) =~= data@.take(
                to as int,
            ));
        }
        s1 = r.0;
        s2 = r.1;
        i = to;
    }
    proof {
        assert(data@.take(n as int) =~= data@);
    }
    s2 * 65536 + s1
}

/// The sum of the bytes.
pub open spec fn byte_sum(data: Seq<u8>) -> int
    decreases data.len(),
{
    if data.len() == 0 {
        0
    } else {
        data[0] + byte_sum(data.drop_first())
    }
}

/// The sum of the bytes, each times its place counted from the end, the last one once.
pub open spec fn weighted_sum(data: Seq<u8>) -> int
    decreases data.len(),
{
    if data.len() == 0 {
        0
    } else {
        data[0] * data.len() + weighted_sum(data.drop_first())
    }
}

/// The sums, from the front.
proof fn lemma_sums_front(s: (int, int), data: Seq<u8>)
    ensures
        plain_sums(s, data).0 == s.0 + byte_sum(data),
        plain_sums(s, data).1 == s.1 + s.0 * data.len() + weighted_sum(data),
    decreases data.len(),
{
    if data.len() == 0 {
        assert(s.0 * 0 == 0);
    } else {
        let b = data[0] as int;
        let rest = data.drop_first();
        let n = rest.len() as int;
        let t = (s.0 + b, s.1 + (s.0 + b));
        lemma_sums_front(t, rest);
        lemma_plain_front(s, data);
        assert((s.0 + b) * n + (s.0 + b) == s.0 * (n + 1) + b * (n + 1)) by (nonlinear_arith);
        assert(data.len() == n + 1);
    }
}

/// The first byte first.
proof fn lemma_plain_front(s: (int, int), data: Seq<u8>)
    requires
        data.len() > 0,
    ensures
        plain_sums(s, data) == plain_sums(
            (s.0 + data[0], s.1 + (s.0 + data[0])),
            data.drop_first(),
        ),
    decreases data.len(),
{
    let t = (s.0 + data[0], s.1 + (s.0 + data[0]));
    if data.len() == 1 {
        assert(data.drop_last() =~= Seq::empty());
        assert(data.drop_first() =~= Seq::empty());
        reveal_with_fuel(plain_sums, 2);
    } else {
        lemma_plain_front(s, data.drop_last());
        assert(data.drop_last().drop_first() =~= data.drop_first().drop_last());
        assert(data.drop_first().last() == data.last());
        assert(data.drop_last()[0] == data[0]);
    }
}

/// The Adler-32 checksum of data is made of two sums modulo 65521: the low half is one more
/// than the sum of the bytes, the high half the sum of all values that the low half has had,
/// so that each byte counts as often as there are bytes from it on.
pub proof fn law_adler32_sums(data: Seq<u8>)
    ensures
        adler32_spec(1, data) == (data.len() + weighted_sum(data)) % 65521 * 65536 + (1 + byte_sum(
            data,
        )) % 65521,
{
    assert(1int / 65536 == 0 && 1int % 65536 == 1);
    if data.len() > 0 {
        lemma_plain((1, 0), data);
    }
    lemma_sums_front((1, 0), data);
    assert(1 * data.len() == data.len());
}

} // verus!
