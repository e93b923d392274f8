//! What a run over the input has written: blocks that decode to it, and how much
//! room they take.

use crate::compress::bitstream::OutputBitstream;
use crate::compress::block;
use crate::compress::emit;
use crate::stream;
use vstd::prelude::*;

verus! {

/// Minimum block length: no block but the last is shorter.
pub const MIN_BLOCK_LENGTH: usize = 5000;

/// Soft maximum block length (uncompressed bytes). Blocks are ended around here.
pub const SOFT_MAX_BLOCK_LENGTH: usize = 300000;

/// Maximum number of sequences for greedy/lazy/lazy2 strategies.
pub const SEQ_STORE_LENGTH: usize = 50000;

/// Soft maximum block length for the fastest strategies.
pub const FAST_SOFT_MAX_BLOCK_LENGTH: usize = 65535;

/// Maximum number of sequences for the fastest strategies.
pub const FAST_SEQ_STORE_LENGTH: usize = 8192;

/// Soft maximum block length for incremental compression: blocks end with the data
/// or where the sequence store is full.
///
/// When a code is made, a symbol and its count are packed in 32 bits, and 22 of them are
/// for the count. A block ends before one of its counts could take more than that.
pub const INCREMENTAL_SOFT_MAX_BLOCK_LENGTH: usize = 4185000;

/// The room that blocks of `n` bytes in all take at most, none of them shorter
/// than the minimum, in bits.
pub open spec fn quota(n: int) -> int {
    8 * n + 40 * (n / 5000)
}

/// The room that `n` bytes take at most, in bytes.
pub open spec fn bound(n: int) -> int {
    n + 5 * if n <= 0 {
        1
    } else {
        (n + 4999) / 5000
    }
}

/// The bytes from `start` to `next` have been written, behind what `old` held.
pub open spec fn progress(
    old: OutputBitstream<'_>,
    new: OutputBitstream<'_>,
    h: Seq<u8>,
    start: int,
    next: int,
    last: bool,
) -> bool {
    let p = stream::align8(old.bits().len() as int);
    let q = stream::align8(new.bits().len() as int);
    &&& new.flushed()
    &&& new.buf@.len() == old.buf@.len()
    &&& old.overflow ==> new.overflow
    &&& !new.overflow ==> {
        &&& emit::extends(
            old.bits(),
            h.take(start),
            new.bits(),
            h.take(next),
            last && next == h.len(),
        )
        &&& next < h.len() ==> q <= p + quota(next - start)
        &&& q <= p + 8 * bound(next - start)
    }
    &&& !old.overflow && p + 8 * bound(h.len() - start) <= 8 * old.buf@.len() ==> !new.overflow
}

/// The bytes from `mid` to `next` have been written behind `b` in one block, a parse of
/// them that is written in the cheapest way.
pub open spec fn block_between(
    b: Seq<bool>,
    b1: Seq<bool>,
    h: Seq<u8>,
    mid: int,
    next: int,
    last: bool,
) -> bool {
    block::coded_block(b, b1, h, mid, next - mid, last && next == h.len())
}

/// The bytes from `start` to `next` have been written behind `b0` in `k` blocks, each of
/// them a parse of its bytes and written in the cheapest way.
pub open spec fn coded_in(
    b0: Seq<bool>,
    b1: Seq<bool>,
    h: Seq<u8>,
    start: int,
    next: int,
    last: bool,
    k: nat,
) -> bool
    decreases k,
{
    if k == 0 {
        b0 == b1 && start == next
    } else {
        exists|b: Seq<bool>, mid: int|
            {
                &&& start <= mid < next
                &&& coded_in(b0, b, h, start, mid, last, (k - 1) as nat)
                &&& #[trigger] block_between(b, b1, h, mid, next, last)
            }
    }
}

/// The bytes from `start` to `next` have been written behind `b0` in blocks, each of them
/// a parse of its bytes and written in the cheapest of three ways: stored, with the static
/// codes, or with Huffman codes for its symbols.
#[verifier::opaque]
pub open spec fn coded(
    b0: Seq<bool>,
    b1: Seq<bool>,
    h: Seq<u8>,
    start: int,
    next: int,
    last: bool,
) -> bool {
    exists|k: nat| #[trigger] coded_in(b0, b1, h, start, next, last, k)
}

pub proof fn lemma_coded_start(b: Seq<bool>, h: Seq<u8>, start: int, last: bool)
    ensures
        coded(b, b, h, start, start, last),
{
    reveal(coded);
    assert(coded_in(b, b, h, start, start, last, 0));
}

/// One more block.
pub proof fn lemma_coded_step(
    b0: Seq<bool>,
    b: Seq<bool>,
    b1: Seq<bool>,
    h: Seq<u8>,
    start: int,
    mid: int,
    n: int,
    last: bool,
)
    requires
        coded(b0, b, h, start, mid, last),
        start <= mid,
        0 < n,
        block::coded_block(b, b1, h, mid, n, last && mid + n == h.len()),
    ensures
        coded(b0, b1, h, start, mid + n, last),
{
    reveal(coded);
    let k = choose|k: nat| #[trigger] coded_in(b0, b, h, start, mid, last, k);
    assert(block_between(b, b1, h, mid, mid + n, last));
    assert((k + 1 - 1) as nat == k);
    assert(coded_in(b0, b1, h, start, mid + n, last, k + 1));
}

/// Nothing has been written.
pub proof fn lemma_progress_start(os: OutputBitstream<'_>, h: Seq<u8>, start: int, last: bool)
    requires
        os.flushed(),
        0 <= start,
        start < h.len() || !last,
    ensures
        progress(os, os, h, start, start, last),
{
    emit::lemma_extends_nothing(os.bits(), h.take(start));
}

/// The room of one more block.
pub proof fn lemma_quota(d: int, n: int, rest: int)
    requires
        0 <= d,
        0 < n,
        0 <= rest,
        rest > 0 ==> n >= 5000,
    ensures
        quota(d) + block::block_room(n) <= 8 * bound(d + n),
        quota(d) + block::block_room(n) <= 8 * bound(d + n + rest),
        rest > 0 ==> quota(d) + block::block_room(n) <= quota(d + n),
{
    let a = d / 5000;
    let k = (n - 1) / 65535 + 1;
    assert(block::block_room(n) == 40 * k + 8 * n);
    let c = (d + n + 4999) / 5000;
    assert(k <= (n + 4999) / 5000);
    assert(a + (n + 4999) / 5000 <= c);
    let c2 = (d + n + rest + 4999) / 5000;
    assert(c <= c2);
    if rest > 0 {
        assert(k <= n / 5000);
        assert(a + n / 5000 <= (d + n) / 5000);
    }
}

/// The bytes from `start` to `next` have been written in no more room than blocks of the
/// minimum length take; before a shorter rest there is room for one more block.
///
/// This is not so where all of the bytes are fewer than the minimum length.
pub open spec fn tight(
    old: OutputBitstream<'_>,
    new: OutputBitstream<'_>,
    h: Seq<u8>,
    start: int,
    next: int,
) -> bool {
    let p = stream::align8(old.bits().len() as int);
    let q = stream::align8(new.bits().len() as int);
    let more = if start < next && 0 < h.len() - next < 5000 {
        40int
    } else {
        0
    };
    !new.overflow && (next < h.len() || h.len() - start >= 5000) ==> q + more <= p + quota(
        next - start,
    )
}

/// One more block has been written, which leaves no short rest unless it is a long one.
pub proof fn lemma_tight_block(
    o0: OutputBitstream<'_>,
    o1: OutputBitstream<'_>,
    o2: OutputBitstream<'_>,
    h: Seq<u8>,
    start: int,
    next: int,
    n: int,
    its: Seq<(int, int)>,
    last: bool,
)
    requires
        0 <= start <= next,
        0 < n,
        next + n <= h.len(),
        next + n < h.len() ==> n >= 5000,
        0 < h.len() - next - n < 5000 ==> n >= 10000,
        tight(o0, o1, h, start, next),
        block::flushed_block(o1, o2, h, next, n, its, last),
    ensures
        tight(o0, o2, h, start, next + n),
{
    let d = next - start;
    let u = (n - 1) / 65535 + 1;
    assert(block::block_room(n) == 40 * u + 8 * n);
    if n >= 10000 {
        assert(u + 1 <= n / 5000);
    }
    if n >= 5000 {
        assert(u <= n / 5000);
        assert(d / 5000 + n / 5000 <= (d + n) / 5000);
    } else {
        assert(u == 1);
        assert(d / 5000 <= (d + n) / 5000);
    }
}

/// One more block has been written, which takes less room than its bytes.
pub proof fn lemma_light_block(
    o0: OutputBitstream<'_>,
    o1: OutputBitstream<'_>,
    o2: OutputBitstream<'_>,
    h: Seq<u8>,
    start: int,
    next: int,
    n: int,
)
    requires
        0 <= start <= next,
        5000 <= n,
        next + n <= h.len(),
        tight(o0, o1, h, start, next),
        o1.overflow ==> o2.overflow,
        !o2.overflow ==> o2.bits().len() + 8 <= o1.bits().len() + 8 * n,
    ensures
        tight(o0, o2, h, start, next + n),
{
    let d = next - start;
    assert(d / 5000 + 1 <= (d + n) / 5000);
}

/// One more block has been written.
pub proof fn lemma_progress_block(
    o0: OutputBitstream<'_>,
    o1: OutputBitstream<'_>,
    o2: OutputBitstream<'_>,
    h: Seq<u8>,
    start: int,
    next: int,
    n: int,
    its: Seq<(int, int)>,
    last: bool,
)
    requires
        0 <= start <= next,
        0 < n,
        next + n <= h.len(),
        next + n < h.len() ==> n >= 5000,
        progress(o0, o1, h, start, next, last),
        block::flushed_block(o1, o2, h, next, n, its, last && next + n == h.len()),
    ensures
        progress(o0, o2, h, start, next + n, last),
{
    lemma_quota(next - start, n, h.len() - next - n);
    if !o2.overflow {
        assert(!o1.overflow);
        emit::lemma_extends_trans(
            o0.bits(),
            h.take(start),
            o1.bits(),
            h.take(next),
            o2.bits(),
            h.take(next + n),
            last && next + n == h.len(),
        );
    }
}

/// Where the data begins that may be matched from `chunk_start` on: a window before
/// it, or at the beginning.
pub open spec fn dictionary_at(chunk_start: int) -> int {
    if chunk_start <= 32768 {
        0
    } else {
        chunk_start - 32768
    }
}

/// Where a block that begins at `begin` ends at the latest, but for the match that
/// reaches over it: with the data if not much more than a block of it is left.
pub open spec fn max_block_end(begin: int, end: int, soft_max_len: int) -> int {
    if end - begin < soft_max_len + 5000 {
        end
    } else {
        begin + soft_max_len
    }
}

/// Where the data begins that may be matched from `chunk_start` on: a window before
/// it, or at the beginning.
pub fn dictionary_start(chunk_start: usize) -> (r: usize)
    ensures
        r == dictionary_at(chunk_start as int),
{
    if chunk_start <= 32768 {
        0
    } else {
        chunk_start - 32768
    }
}

/// Where a block that begins at `block_begin` ends at the latest, but for the
/// match that reaches over it.
pub fn choose_max_block_end(block_begin: usize, in_end: usize, soft_max_len: usize) -> (r: usize)
    requires
        block_begin <= in_end,
        soft_max_len <= 4185000,
    ensures
        r == max_block_end(block_begin as int, in_end as int, soft_max_len as int),
{
    if in_end - block_begin < soft_max_len + MIN_BLOCK_LENGTH {
        in_end
    } else {
        block_begin + soft_max_len
    }
}

/// The bound leaves room for five bytes for each 5000 bytes, or a part of them, and at least
/// once: it grows with the data, by no more than a thousandth on top of it, and is no less for
/// two parts on their own than for both together.
pub proof fn law_bound(a: int, b: int)
    requires
        0 <= a,
        0 <= b,
    ensures
        a + 5 <= bound(a) <= a + a / 1000 + 5,
        5000 * (bound(a) - a) >= 5 * a,
        bound(a) <= bound(a + b) <= bound(a) + bound(b),
{
}

/// A block is not longer than the rest of the data, and leaves none of it or at least 5000
/// bytes; it may reach to its soft limit if there is so much data, and no further than 5000
/// bytes beyond it.
pub proof fn law_block_end(begin: int, end: int, soft_max_len: int)
    requires
        begin <= end,
        0 <= soft_max_len,
    ensures
        begin <= max_block_end(begin, end, soft_max_len) <= end,
        max_block_end(begin, end, soft_max_len) == end || end - max_block_end(
            begin,
            end,
            soft_max_len,
        ) >= 5000,
        max_block_end(begin, end, soft_max_len) - begin < soft_max_len + 5000,
        end - begin >= soft_max_len ==> max_block_end(begin, end, soft_max_len) - begin
            >= soft_max_len,
{
}

} // verus!
