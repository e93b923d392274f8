//! What blocks cost.

use crate::compress::block;
use crate::compress::block::{DeflateCodes, DeflateFreqs};
use crate::compress::cost_model;
use crate::compress::emit;
use crate::compress::items;
use crate::compress::near_model;
use crate::compress::near_optimal;
use crate::compress::precode::{BestPrecodeResult, PrecodeFlags};
use crate::compress::stored;
use crate::stream;
use vstd::prelude::*;

verus! {

/// A block takes as many bits as the shortest of the three ways to write it: stored, behind the rest
/// of the byte and with five bytes for each 65535 of its own; with the static codes, a header
/// of three bits and seven for the end of the block; or with the Huffman codes for its
/// symbols and a header that lists them.
#[verifier::spinoff_prover]
#[verifier::rlimit(60)]
pub proof fn law_block_is_cheapest(
    b0: Seq<bool>,
    b1: Seq<bool>,
    h: Seq<u8>,
    base: int,
    n: int,
    its: Seq<(int, int)>,
    last: bool,
)
    requires
        0 <= base,
        0 < n,
        base + n <= h.len(),
        block::coded_as(b0, b1, h, base, n, its, last),
    ensures
        b1.len() <= (b0.len() + 3 + 7) / 8 * 8 + 32 + 8 * n + 40 * ((n - 1) / 65535),
        b1.len() <= b0.len() + 3 + items::cost(
            h,
            base,
            its,
            stream::static_litlen_lens(),
            stream::static_offset_lens(),
        ) + 7,
        b1.len() <= b0.len() + 3 + near_model::items_cost(h, base, its),
        b1.len() == (b0.len() + 3 + 7) / 8 * 8 + 32 + 8 * n + 40 * ((n - 1) / 65535) || b1.len()
            == b0.len() + 3 + items::cost(
            h,
            base,
            its,
            stream::static_litlen_lens(),
            stream::static_offset_lens(),
        ) + 7 || b1.len() == b0.len() + 3 + near_model::items_cost(h, base, its),
{
    reveal(block::coded_with);
    reveal(block::written_best);
    reveal(block::built);
    let (freqs, codes) = choose|freqs: DeflateFreqs, codes: DeflateCodes|
        {
            &&& items::parse_ok(h, base, its)
            &&& items::end_of(base, its) == base + n
            &&& #[trigger] freqs.counts(h, base, its, 1)
            &&& block::built(freqs, codes)
            &&& #[trigger] block::written_best(b0, b1, h, base, n, its, last, codes, true)
        };
    let (pk, nl, no) = choose|pk: BestPrecodeResult, nl: int, no: int|
        #![trigger pk.wf(codes.lens_litlen@.take(nl) + codes.lens_offset@.take(no))]
        {
            let ll = codes.lens_litlen@.take(nl);
            let ol = codes.lens_offset@.take(no);
            &&& 257 <= nl <= 288
            &&& nl > 257 ==> codes.lens_litlen@[nl - 1] > 0
            &&& forall|s: int| nl <= s < 288 ==> #[trigger] codes.lens_litlen@[s] == 0
            &&& 1 <= no <= 32
            &&& no > 1 ==> codes.lens_offset@[no - 1] > 0
            &&& forall|s: int| no <= s < 32 ==> #[trigger] codes.lens_offset@[s] == 0
            &&& pk.wf(ll + ol)
            &&& pk.packs(ll + ol, PrecodeFlags::all_codes())
            &&& block::cheapest_way(b0, b1, h, base, n, its, last, ll, ol, pk)
        };
    let ll = codes.lens_litlen@.take(nl);
    let ol = codes.lens_offset@.take(no);
    near_optimal::lemma_items_cost(freqs, codes, h, base, its);
    block::lemma_trimmed_codes(codes, freqs, h, base, its, nl, no);
    block::lemma_symbol_cost(freqs, h, base, its, 1, codes.lens_litlen@, codes.lens_offset@);
    cost_model::lemma_used_syms(codes.lens_litlen@, 257, 288, nl);
    cost_model::lemma_used_syms(codes.lens_offset@, 1, 32, no);
    cost_model::lemma_header_cost(ll + ol, PrecodeFlags::all_codes(), pk);
    block::lemma_dynamic_block(b0, h, base, its, last, ll, ol, pk);
    stream::lemma_static_codes();
    assert(emit::code_ok(stream::static_litlen_lens()));
    block::lemma_static_block(b0, h, base, its, last);
    let data = h.subrange(base, base + n);
    stored::lemma_with_stored_len(b0, data, last);
    lemma_stored_end(b0.len() as int, n);
}

/// How many bits stored blocks take.
proof fn lemma_stored_end(p: int, n: int)
    requires
        0 <= p,
        0 < n,
    ensures
        stored::stored_end(p, n) == (p + 3 + 7) / 8 * 8 + 32 + 8 * n + 40 * ((n - 1) / 65535),
    decreases n,
{
    if n > 65535 {
        let q = (p + 3 + 7) / 8 * 8 + 32 + 8 * 65535;
        lemma_stored_end(q, n - 65535);
        assert((n - 1) / 65535 == (n - 65535 - 1) / 65535 + 1);
    }
}

} // verus!
