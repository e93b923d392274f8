//! Choices that depend on the data: the shortest match to take, and how far to
//! search near the end.

use crate::arith::min_u32;
use crate::compress::block::DeflateFreqs;
use vstd::arithmetic::power2::*;
use vstd::prelude::*;

verus! {

/// Minimum match length lookup table indexed by number of distinct literal values.
///
/// Fewer distinct literals mean a longer minimum (short matches aren't worth the
/// overhead when the literal alphabet is small, e.g. DNA or binary data).
pub open spec fn min_len_of(num_used_literals: int) -> int {
    if num_used_literals < 6 {
        9
    } else if num_used_literals < 8 {
        8
    } else if num_used_literals < 10 {
        7
    } else if num_used_literals < 16 {
        6
    } else if num_used_literals < 45 {
        5
    } else if num_used_literals < 80 {
        4
    } else {
        3
    }
}

/// The longest minimum that makes sense with a search depth.
pub open spec fn depth_limit(max_search_depth: int) -> int {
    if max_search_depth < 5 {
        4
    } else if max_search_depth < 10 {
        5
    } else if max_search_depth < 16 {
        7
    } else {
        9
    }
}

/// The minimum match length for a number of distinct literals and a search depth.
pub open spec fn min_match_len(num_used_literals: int, max_search_depth: int) -> int {
    if min_len_of(num_used_literals) <= depth_limit(max_search_depth) {
        min_len_of(num_used_literals)
    } else {
        depth_limit(max_search_depth)
    }
}

/// Choose minimum match length based on literal diversity and search depth.
pub fn choose_min_match_len(num_used_literals: u32, max_search_depth: u32) -> (r: u32)
    ensures
        r == min_match_len(num_used_literals as int, max_search_depth as int),
        3 <= r <= 9,
{
    let min_len: u32 = if num_used_literals < 6 {
        9
    } else if num_used_literals < 8 {
        8
    } else if num_used_literals < 10 {
        7
    } else if num_used_literals < 16 {
        6
    } else if num_used_literals < 45 {
        5
    } else if num_used_literals < 80 {
        4
    } else {
        3
    };
    if max_search_depth < 5 {
        min_u32(min_len, 4)
    } else if max_search_depth < 10 {
        min_u32(min_len, 5)
    } else if max_search_depth < 16 {
        min_u32(min_len, 7)
    } else {
        min_len
    }
}

/// Byte `b` occurs in the data from `from` to `to`.
pub open spec fn occurs(data: Seq<u8>, from: int, to: int, b: int) -> bool {
    exists|i: int| from <= i < to && data[i] == b
}

/// How many of the byte values below `n` are marked.
pub open spec fn marked(used: Seq<bool>, n: nat) -> nat
    decreases n,
{
    if n == 0 {
        0
    } else {
        marked(used, (n - 1) as nat) + if used[n - 1] {
            1nat
        } else {
            0
        }
    }
}

/// For each byte value, whether it occurs in the data from `from` to `to`.
pub open spec fn used_literals(data: Seq<u8>, from: int, to: int) -> Seq<bool> {
    Seq::new(256, |b: int| occurs(data, from, to, b))
}

/// The minimum match length for the data from `from` to `to`: it depends on how
/// many byte values occur in the first 4 KiB, unless there are fewer than 512
/// bytes.
pub open spec fn initial_min_len(data: Seq<u8>, from: int, to: int, max_search_depth: int) -> int {
    if to - from < 512 {
        3
    } else {
        let end = if to - from < 4096 {
            to
        } else {
            from + 4096
        };
        min_match_len(marked(used_literals(data, from, end), 256) as int, max_search_depth)
    }
}

/// Calculate initial minimum match length by scanning literal diversity in the
/// data from `from` to `to`.
pub fn calculate_min_match_len(
    data: &[u8],
    from: usize,
    to: usize,
    max_search_depth: u32,
) -> (r: u32)
    requires
        from <= to <= data@.len(),
    ensures
        r == initial_min_len(data@, from as int, to as int, max_search_depth as int),
        3 <= r <= 9,
{
    if to - from < 512 {
        return 3;
    }
    let end: usize = if to - from < 4096 {
        to
    } else {
        from + 4096
    };
    let mut used: [bool; 256] = [false; 256];
    let mut i: usize = from;
    while i < end
        invariant
            from <= i <= end,
            end <= data@.len(),
            forall|b: int|
                0 <= b < 256 ==> #[trigger] used@[b] == occurs(data@, from as int, i as int, b),
        decreases end - i,
    {
        let v: u8 = data[i];
        let ghost u0 = used@;
        used[v as usize] = true;
        proof {
            assert forall|b: int| 0 <= b < 256 implies #[trigger] used@[b] == occurs(
                data@,
                from as int,
                i + 1,
                b,
            ) by {
                assert(u0[b] == occurs(data@, from as int, i as int, b));
                if b == v {
                    assert(data@[i as int] == b);
                } else if occurs(data@, from as int, i + 1, b) {
                    let j = choose|j: int| from <= j < i + 1 && data@[j] == b;
                    assert(j < i);
                    assert(occurs(data@, from as int, i as int, b));
                }
            }
        }
        i = i + 1;
    }
    proof {
        assert(used@ =~= used_literals(data@, from as int, end as int));
    }
    let n: u32 = count_marked(&used);
    choose_min_match_len(n, max_search_depth)
}

/// Count the marked byte values.
fn count_marked(used: &[bool; 256]) -> (r: u32)
    ensures
        r == marked(used@, 256),
        r <= 256,
{
    let mut n: u32 = 0;
    let mut b: usize = 0;
    while b < 256
        invariant
            b <= 256,
            n == marked(used@, b as nat),
            n <= b,
        decreases 256 - b,
    {
        if used[b] {
            n = n + 1;
        }
        b = b + 1;
    }
    n
}

/// The number of literals counted among the first `n` byte values.
pub open spec fn literal_sum(counts: Seq<u32>, n: nat) -> int
    decreases n,
{
    if n == 0 {
        0
    } else {
        literal_sum(counts, (n - 1) as nat) + counts[n - 1]
    }
}

/// For each byte value, whether it makes up more than a 1024th of the literals.
pub open spec fn common_literals(counts: Seq<u32>) -> Seq<bool> {
    Seq::new(256, |b: int| counts[b] > literal_sum(counts, 256) / 1024)
}

/// Recalculate minimum match length based on actual frequency distribution.
pub fn recalculate_min_match_len(freqs: &DeflateFreqs, max_search_depth: u32) -> (r: u32)
    requires
        forall|s: int| 0 <= s < 288 ==> #[trigger] freqs.litlen@[s] <= 0x40_0000,
    ensures
        r == min_match_len(marked(common_literals(freqs.litlen@), 256) as int, max_search_depth as int),
        3 <= r <= 9,
{
    let mut total: u32 = 0;
    let mut b: usize = 0;
    while b < 256
        invariant
            b <= 256,
            forall|s: int| 0 <= s < 288 ==> #[trigger] freqs.litlen@[s] <= 0x40_0000,
            total == literal_sum(freqs.litlen@, b as nat),
            total <= b * 0x40_0000,
        decreases 256 - b,
    {
        total = total + freqs.litlen[b];
        b = b + 1;
    }
    let cutoff: u32 = total / 1024;
    let mut used: [bool; 256] = [false; 256];
    b = 0;
    while b < 256
        invariant
            b <= 256,
            cutoff == literal_sum(freqs.litlen@, 256) / 1024,
            forall|s: int| 0 <= s < b ==> #[trigger] used@[s] == (freqs.litlen@[s] > cutoff),
        decreases 256 - b,
    {
        used[b] = freqs.litlen[b] > cutoff;
        b = b + 1;
    }
    assert(used@ =~= common_literals(freqs.litlen@));
    let n: u32 = count_marked(&used);
    choose_min_match_len(n, max_search_depth)
}

/// Adjust max_len and nice_len when approaching the end of input.
#[inline]
pub fn adjust_max_and_nice_len(max_len: &mut u32, nice_len: &mut u32, remaining: usize)
    ensures
        remaining >= 258 ==> *final(max_len) == *old(max_len) && *final(nice_len) == *old(nice_len),
        remaining < 258 ==> *final(max_len) == remaining && *final(nice_len) == if *old(nice_len)
            <= remaining {
            *old(nice_len) as int
        } else {
            remaining as int
        },
{
    if remaining < 258 {
        *max_len = remaining as u32;
        *nice_len = min_u32(*nice_len, *max_len);
    }
}

/// The place of the highest bit of a number.
pub open spec fn log2_of(v: int) -> int
    decreases v,
{
    if v <= 1 {
        0
    } else {
        1 + log2_of(v / 2)
    }
}

proof fn lemma_log2_bound(v: int, n: nat)
    requires
        0 < v < pow2(n),
    ensures
        0 <= log2_of(v) < n,
    decreases n,
{
    if n == 0 {
        lemma2_to64();
    } else if v > 1 {
        lemma_pow2_unfold(n);
        lemma_log2_bound(v / 2, (n - 1) as nat);
    }
}

/// The highest bit of a number is one of its bits.
pub proof fn lemma_log2_range(v: u32)
    requires
        v > 0,
    ensures
        0 <= log2_of(v as int) < 32,
{
    lemma2_to64();
    lemma_log2_bound(v as int, 32);
}

/// Bit scan reverse: floor(log2(v)). v must be > 0.
#[inline]
pub fn bsr32(v: u32) -> (r: u32)
    requires
        v > 0,
    ensures
        r == log2_of(v as int),
        r < 32,
{
    proof {
        lemma2_to64();
        lemma_log2_bound(v as int, 32);
    }
    let mut x: u32 = v;
    let mut r: u32 = 0;
    while x > 1
        invariant
            x > 0,
            r + log2_of(x as int) == log2_of(v as int),
            0 <= log2_of(x as int),
            log2_of(v as int) < 32,
        decreases x,
    {
        proof {
            lemma2_to64();
            lemma_log2_bound(x as int / 2, 32);
        }
        x = x / 2;
        r = r + 1;
    }
    r
}

} // verus!
