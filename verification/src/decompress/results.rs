//! Decode results: what a table entry says about its symbol.
//!
//! A literal has the top bit set and its value above bit 16. The end-of-block
//! symbol has two flags set. A length or an offset has its base value above bit
//! 16 and the number of its extra bits in the low byte.

use crate::constants::{
    DEFLATE_LENGTH_BASE, DEFLATE_LENGTH_EXTRA_BITS, DEFLATE_OFFSET_BASE, DEFLATE_OFFSET_EXTRA_BITS,
};
use crate::decompress::table;
use crate::stream;
use vstd::arithmetic::power2::*;
use vstd::prelude::*;

verus! {

/// The decode result of a precode symbol.
pub open spec fn precode_result(sym: int) -> int {
    sym * 65536
}

/// The decode result of a literal/length symbol.
pub open spec fn litlen_result(sym: int) -> int {
    if sym < 256 {
        0x8000_0000 + sym * 65536
    } else if sym == 256 {
        0xA000
    } else {
        stream::length_base(sym) * 65536 + stream::length_extra(sym)
    }
}

/// The decode result of an offset symbol.
pub open spec fn offset_result(sym: int) -> int {
    stream::offset_base(sym) * 65536 + stream::offset_extra(sym)
}

/// Decode results of all precode symbols.
pub fn gen_precode_decode_results() -> (r: [u32; 19])
    ensures
        forall|i: int| 0 <= i < 19 ==> #[trigger] r@[i] == precode_result(i),
{
    let mut r: [u32; 19] = [0u32; 19];
    let mut i: usize = 0;
    while i < 19
        invariant
            i <= 19,
            forall|j: int| 0 <= j < i ==> #[trigger] r@[j] == precode_result(j),
        decreases 19 - i,
    {
        r[i] = i as u32 * 65536;
        i = i + 1;
    }
    r
}

/// Decode results of all literal/length symbols.
pub fn gen_litlen_decode_results() -> (r: [u32; 288])
    ensures
        forall|i: int| 0 <= i < 288 ==> #[trigger] r@[i] == litlen_result(i),
{
    let mut r: [u32; 288] = [0u32; 288];
    let mut i: usize = 0;
    while i < 256
        invariant
            i <= 256,
            forall|j: int| 0 <= j < i ==> #[trigger] r@[j] == litlen_result(j),
        decreases 256 - i,
    {
        r[i] = 0x8000_0000 + i as u32 * 65536;
        i = i + 1;
    }
    r[256] = 0xA000;
    i = 0;
    while i < 29
        invariant
            i <= 29,
            forall|j: int| 0 <= j < 257 + i ==> #[trigger] r@[j] == litlen_result(j),
        decreases 29 - i,
    {
        proof {
            lemma_length_bounds(257 + i);
        }
        r[257 + i] = DEFLATE_LENGTH_BASE[i] as u32 * 65536 + DEFLATE_LENGTH_EXTRA_BITS[i] as u32;
        i = i + 1;
    }
    r[286] = 258 * 65536;
    r[287] = 258 * 65536;
    r
}

/// Decode results of all offset symbols.
pub fn gen_offset_decode_results() -> (r: [u32; 32])
    ensures
        forall|i: int| 0 <= i < 32 ==> #[trigger] r@[i] == offset_result(i),
{
    let mut r: [u32; 32] = [0u32; 32];
    let mut i: usize = 0;
    while i < 32
        invariant
            i <= 32,
            forall|j: int| 0 <= j < i ==> #[trigger] r@[j] == offset_result(j),
        decreases 32 - i,
    {
        proof {
            lemma_offset_bounds(i as int);
        }
        r[i] = DEFLATE_OFFSET_BASE[i] * 65536 + DEFLATE_OFFSET_EXTRA_BITS[i] as u32;
        i = i + 1;
    }
    r
}

pub proof fn lemma_length_bounds(sym: int)
    requires
        257 <= sym < 288,
    ensures
        3 <= stream::length_base(sym) <= 258,
        stream::length_extra(sym) <= 5,
        stream::length_base(sym) + pow2(stream::length_extra(sym)) <= 259,
{
    lemma2_to64();
}

pub proof fn lemma_offset_bounds(sym: int)
    requires
        0 <= sym < 32,
    ensures
        1 <= stream::offset_base(sym) <= 24577,
        stream::offset_extra(sym) <= 13,
        stream::offset_base(sym) + pow2(stream::offset_extra(sym)) <= 32769,
{
    lemma2_to64();
}

/// What an entry of the precode table tells.
pub proof fn lemma_precode_entry(sym: int, k: int)
    requires
        0 <= sym < 19,
        1 <= k <= 15,
    ensures
        table::entry(precode_result(sym), k) <= u32::MAX,
        !table::is_pointer(table::entry(precode_result(sym), k)),
        table::entry(precode_result(sym), k) / 65536 == sym,
        table::entry(precode_result(sym), k) % 256 == k,
{
}

/// What an entry of the literal/length table tells.
pub proof fn lemma_litlen_entry(sym: int, k: int)
    requires
        0 <= sym < 288,
        1 <= k <= 15,
    ensures
        ({
            let e = table::entry(litlen_result(sym), k);
            &&& 0 <= e <= u32::MAX
            &&& !table::is_pointer(e)
            &&& e >= 0x8000_0000 <==> sym < 256
            &&& sym < 256 ==> (e / 65536) % 256 == sym && e % 256 == k
            &&& sym >= 256 ==> ((e / 8192) % 2 == 1 <==> sym == 256)
            &&& sym == 256 ==> e % 256 == k
            &&& sym > 256 ==> {
                &&& e / 65536 == stream::length_base(sym)
                &&& e % 256 == k + stream::length_extra(sym)
                &&& (e / 256) % 32 == k
            }
        }),
{
    let e = table::entry(litlen_result(sym), k);
    if sym < 256 {
        let hi = 0x8000 + sym;
        let lo = k * 257;
        assert(e == hi * 65536 + lo);
        assert(e / 65536 == hi);
        assert(hi % 256 == sym);
        assert(e == 256 * (hi * 256 + k) + k);
        assert(e % 256 == k);
        assert(e / 16384 == hi * 4);
    } else if sym == 256 {
        let lo = k * 257;
        assert(e == 0xA000 + lo);
        assert(e / 16384 == 2);
        assert(e / 8192 == 5);
        assert(e == 256 * (160 + k) + k);
        assert(e % 256 == k);
    } else {
        lemma_length_bounds(sym);
        let b = stream::length_base(sym);
        let x = stream::length_extra(sym) as int;
        assert(e == b * 65536 + k * 256 + (k + x));
        assert(e / 65536 == b);
        assert(e / 16384 == b * 4);
        assert((b * 4) % 2 == 0);
        assert(e / 8192 == b * 8);
        assert((b * 8) % 2 == 0);
        assert(e == 256 * (b * 256 + k) + (k + x));
        assert(e % 256 == k + x);
        assert(e / 256 == b * 256 + k);
        assert(b * 256 + k == 32 * (b * 8) + k);
        assert((b * 256 + k) % 32 == k);
    }
}

/// What an entry of the offset table tells.
pub proof fn lemma_offset_entry(sym: int, k: int)
    requires
        0 <= sym < 32,
        1 <= k <= 15,
    ensures
        ({
            let e = table::entry(offset_result(sym), k);
            &&& 0 <= e <= u32::MAX
            &&& !table::is_pointer(e)
            &&& e / 65536 == stream::offset_base(sym)
            &&& e % 256 == k + stream::offset_extra(sym)
            &&& (e / 256) % 32 == k
        }),
{
    lemma_offset_bounds(sym);
    let e = table::entry(offset_result(sym), k);
    let b = stream::offset_base(sym);
    let x = stream::offset_extra(sym) as int;
    assert(e == b * 65536 + k * 256 + (k + x));
    assert(e / 65536 == b);
    assert(e / 16384 == b * 4);
    assert((b * 4) % 2 == 0);
    assert(e == 256 * (b * 256 + k) + (k + x));
    assert(e % 256 == k + x);
    assert(e / 256 == b * 256 + k);
    assert(b * 256 + k == 32 * (b * 8) + k);
    assert((b * 256 + k) % 32 == k);
}

pub open spec fn is_precode_results(r: Seq<u32>) -> bool {
    r.len() == 19 && forall|i: int| 0 <= i < 19 ==> #[trigger] r[i] == precode_result(i)
}

pub open spec fn is_litlen_results(r: Seq<u32>) -> bool {
    r.len() == 288 && forall|i: int| 0 <= i < 288 ==> #[trigger] r[i] == litlen_result(i)
}

pub open spec fn is_offset_results(r: Seq<u32>) -> bool {
    r.len() == 32 && forall|i: int| 0 <= i < 32 ==> #[trigger] r[i] == offset_result(i)
}

pub proof fn lemma_results_ok(r: Seq<u32>)
    requires
        is_precode_results(r) || is_litlen_results(r) || is_offset_results(r),
    ensures
        table::results_ok(r),
{
    assert forall|s: int, l: int| 0 <= s < r.len() && 1 <= l <= 15 implies !table::is_pointer(
        #[trigger] table::entry(r[s] as int, l),
    ) && table::entry(r[s] as int, l) <= u32::MAX by {
        if is_precode_results(r) {
            lemma_precode_entry(s, l);
        } else if is_litlen_results(r) {
            lemma_litlen_entry(s, l);
        } else {
            lemma_offset_entry(s, l);
        }
    }
}

} // verus!
