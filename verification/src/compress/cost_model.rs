//! What a block costs, as a function of its counters.

use crate::compress::block;
use crate::compress::huffman_model;
use crate::compress::precode;
use crate::compress::precode::{BestPrecodeResult, PrecodeFlags};
use crate::compress::uniqueness;
use vstd::prelude::*;

verus! {

/// The lengths of the Huffman code for counters, with codewords of at most `max` bits.
pub open spec fn code_for(freqs: Seq<u32>, max: int) -> Seq<u8> {
    choose|lens: Seq<u8>|
        lens.len() == freqs.len() && #[trigger] huffman_model::lengths_for(freqs, max, lens)
}

/// There is one such code.
pub proof fn lemma_code_for(freqs: Seq<u32>, max: int, lens: Seq<u8>)
    requires
        lens.len() == freqs.len(),
        huffman_model::lengths_for(freqs, max, lens),
    ensures
        lens == code_for(freqs, max),
{
    uniqueness::law_lengths_once(freqs, max, lens, code_for(freqs, max));
}

/// How many of the first `n` symbols there are up to the last one with a codeword, but at
/// least `least`.
pub open spec fn used_syms(lens: Seq<u8>, least: int, n: int) -> int
    decreases n,
{
    if n <= least || n <= 0 || lens[n - 1] != 0 {
        n
    } else {
        used_syms(lens, least, n - 1)
    }
}

/// A number of symbols behind which there is no codeword is the number of used symbols.
pub proof fn lemma_used_syms(lens: Seq<u8>, least: int, n: int, k: int)
    requires
        0 <= least <= k <= n,
        forall|s: int| k <= s < n ==> #[trigger] lens[s] == 0,
        k > least ==> lens[k - 1] != 0,
    ensures
        used_syms(lens, least, n) == k,
    decreases n,
{
    if n > k {
        assert(lens[n - 1] == 0);
        lemma_used_syms(lens, least, n - 1, k);
    }
}

/// The header with these code lengths, packed as the flags say, takes this number of bits.
pub open spec fn header_takes(lens: Seq<u8>, f: PrecodeFlags, cost: int) -> bool {
    exists|pk: BestPrecodeResult| #[trigger] pk.packs(lens, f) && pk.cost == cost
}

/// The number of bits that the header with these code lengths takes, packed as the flags
/// say.
pub open spec fn header_cost(lens: Seq<u8>, f: PrecodeFlags) -> int {
    choose|cost: int| header_takes(lens, f, cost)
}

/// A header takes one number of bits.
pub proof fn lemma_header_cost(lens: Seq<u8>, f: PrecodeFlags, pk: BestPrecodeResult)
    requires
        pk.packs(lens, f),
    ensures
        header_cost(lens, f) == pk.cost,
{
    assert(header_takes(lens, f, pk.cost as int));
    let c = header_cost(lens, f);
    assert(header_takes(lens, f, c));
    let q = choose|q: BestPrecodeResult| #[trigger] q.packs(lens, f) && q.cost == c;
    uniqueness::lemma_packs_once(pk, q, lens, f);
}

/// The first of the cheapest ways to pack code lengths: with all codes for runs, or as one
/// of the first `m` bitmasks says.
pub open spec fn best_flags(lens: Seq<u8>, m: int) -> PrecodeFlags
    decreases m,
{
    if m <= 0 {
        PrecodeFlags::all_codes()
    } else {
        let f = best_flags(lens, m - 1);
        let g = precode::flags_of(m - 1);
        if g.valid() && header_cost(lens, g) < header_cost(lens, f) {
            g
        } else {
            f
        }
    }
}

/// The code lengths that a header holds.
pub open spec fn listed_lens(ll: Seq<u8>, ol: Seq<u8>) -> Seq<u8> {
    ll.take(used_syms(ll, 257, 288)) + ol.take(used_syms(ol, 1, 32))
}

/// What a block with these counters costs in codes of its own: the header, and the symbols
/// with their extra bits.
pub open spec fn true_cost(lf: Seq<u32>, of: Seq<u32>, ll: Seq<u8>, ol: Seq<u8>) -> int {
    header_cost(listed_lens(ll, ol), PrecodeFlags::all_codes()) + block::litlen_freq_sum(
        lf,
        ll,
        288,
    ) + block::offset_freq_sum(of, ol, 32)
}

/// What a block with these counters costs in the codes for the counters.
pub open spec fn cost_of_counts(lf: Seq<u32>, of: Seq<u32>) -> int {
    true_cost(lf, of, code_for(lf, 14), code_for(of, 15))
}

} // verus!
