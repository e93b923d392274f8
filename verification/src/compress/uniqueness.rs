//! What is written is determined by the data and the level.

use crate::bits;
use crate::compress::block;
use crate::compress::block::{DeflateCodes, DeflateFreqs};
use crate::compress::chain_model;
use crate::compress::chains::{Lookahead, SearchParams};
use crate::compress::compressor;
use crate::compress::cost_model;
use crate::compress::fastest;
use crate::compress::huffman;
use crate::compress::huffman_model;
use crate::compress::items;
use crate::compress::level::{CompressionLevel, InternalStrategy};
use crate::compress::near_model;
use crate::compress::pack;
use crate::compress::precode::{BestPrecodeResult, PrecodeFlags};
use crate::compress::stored;
use crate::constants::DEFLATE_PRECODE_LENS_PERMUTATION;
use crate::matchfinder::fast_ht::FastHtMatchfinder;
use crate::matchfinder::ht::HtMatchfinder;
use crate::matchfinder::turbo::TurboMatchfinder;
use crate::matchfinder::HashMatchfinder;
use vstd::prelude::*;

verus! {

/// A sorted sequence without duplicates rises from place to place.
proof fn lemma_rises(v: Seq<u32>, i: int, j: int)
    requires
        huffman::ascending(v),
        v.no_duplicates(),
        0 <= i < j < v.len(),
    ensures
        v[i] < v[j],
{
    assert(v[i] <= v[j]);
    assert(v[i] != v[j]);
}

/// What one sorted list of the used symbols holds, the other one holds too.
proof fn lemma_other_holds(freqs: Seq<u32>, a: Seq<u32>, b: Seq<u32>, k: int) -> (j: int)
    requires
        huffman::sorted_symbols(freqs, a),
        huffman::sorted_symbols(freqs, b),
        0 <= k < a.len(),
    ensures
        0 <= j < b.len(),
        b[j] == a[k],
{
    let s = a[k] as int % 1024;
    assert(freqs[s] > 0);
    let j = choose|j: int| 0 <= j < b.len() && b[j] as int % 1024 == s;
    assert(b[j] == huffman::packed(freqs, s));
    assert(a[k] == huffman::packed(freqs, s));
    j
}

/// Two sorted lists of the used symbols agree at place `k` if they agree before it.
proof fn lemma_same_upto(freqs: Seq<u32>, a: Seq<u32>, b: Seq<u32>, k: int)
    requires
        huffman::sorted_symbols(freqs, a),
        huffman::sorted_symbols(freqs, b),
        0 <= k <= a.len(),
    ensures
        k <= b.len(),
        forall|i: int| 0 <= i < k ==> a[i] == b[i],
    decreases k,
{
    if k > 0 {
        lemma_same_upto(freqs, a, b, k - 1);
        let j = lemma_other_holds(freqs, a, b, k - 1);
        if j < k - 1 {
            lemma_rises(a, j, k - 1);
            assert(false);
        }
        assert(b.len() > k - 1);
        let i = lemma_other_holds(freqs, b, a, k - 1);
        if i < k - 1 {
            lemma_rises(b, i, k - 1);
            assert(false);
        }
        if j > k - 1 {
            lemma_rises(b, k - 1, j);
        }
        if i > k - 1 {
            lemma_rises(a, k - 1, i);
        }
        assert(a[k - 1] == b[k - 1]);
    }
}

/// There is one sorted list of the used symbols.
pub proof fn lemma_sorted_once(freqs: Seq<u32>, a: Seq<u32>, b: Seq<u32>)
    requires
        huffman::sorted_symbols(freqs, a),
        huffman::sorted_symbols(freqs, b),
    ensures
        a == b,
{
    lemma_same_upto(freqs, a, b, a.len() as int);
    lemma_same_upto(freqs, b, a, b.len() as int);
    assert(a =~= b);
}

/// A place gets one length.
proof fn lemma_placed_once(c: Seq<u32>, m: int, j: int, d: int, e: int)
    requires
        huffman::placed(c, m, j, d),
        huffman::placed(c, m, j, e),
    ensures
        d == e,
{
    if d < e {
        huffman::lemma_leaves_mono(c, d as nat, (e - 1) as nat);
    }
    if e < d {
        huffman::lemma_leaves_mono(c, e as nat, (d - 1) as nat);
    }
}

/// Counters have one Huffman code of limited length.
pub proof fn law_lengths_once(freqs: Seq<u32>, max: int, a: Seq<u8>, b: Seq<u8>)
    requires
        a.len() == freqs.len(),
        b.len() == freqs.len(),
        huffman_model::lengths_for(freqs, max, a),
        huffman_model::lengths_for(freqs, max, b),
    ensures
        a == b,
{
    reveal(huffman_model::lengths_for);
    if huffman::used_count(freqs, freqs.len()) >= 2 {
        let s1 = choose|s: Seq<u32>| #[trigger] huffman_model::assigned(freqs, s, max, a);
        let s2 = choose|s: Seq<u32>| #[trigger] huffman_model::assigned(freqs, s, max, b);
        lemma_sorted_once(freqs, s1, s2);
        assert forall|s: int| 0 <= s < freqs.len() implies a[s] == b[s] by {
            if freqs[s] > 0 {
                let j = choose|j: int| 0 <= j < s1.len() && s1[j] as int % 1024 == s;
                let c = huffman_model::length_counts(s1, max);
                let at = s1[j] as int % 1024;
                lemma_placed_once(c, s1.len() as int, j, a[at] as int, b[at] as int);
            } else {
                assert(a[s] == 0 && b[s] == 0);
            }
        }
    }
    assert(a =~= b);
}

/// Lengths are packed in one way for given flags.
pub proof fn lemma_packs_once(p: BestPrecodeResult, q: BestPrecodeResult, lens: Seq<u8>, f: PrecodeFlags)
    requires
        p.packs(lens, f),
        q.packs(lens, f),
    ensures
        p.precode_items@ == q.precode_items@,
        p.precode_lens@ == q.precode_lens@,
        p.num_explicit_lens == q.num_explicit_lens,
        p.cost == q.cost,
{
    assert(p.precode_freqs@ =~= q.precode_freqs@);
    law_lengths_once(p.precode_freqs@, 7, p.precode_lens@, q.precode_lens@);
    let m = p.num_explicit_lens as int;
    let n = q.num_explicit_lens as int;
    if m < n {
        assert(p.precode_lens@[DEFLATE_PRECODE_LENS_PERMUTATION@[n - 1] as int] == 0);
    }
    if n < m {
        assert(q.precode_lens@[DEFLATE_PRECODE_LENS_PERMUTATION@[m - 1] as int] == 0);
    }
}

/// The same counters.
proof fn lemma_counts_once(
    f: DeflateFreqs,
    g: DeflateFreqs,
    h: Seq<u8>,
    base: int,
    its: Seq<(int, int)>,
)
    requires
        f.counts(h, base, its, 1),
        g.counts(h, base, its, 1),
    ensures
        f.litlen@ == g.litlen@,
        f.offset@ == g.offset@,
{
    assert forall|s: int| 0 <= s < 288 implies f.litlen@[s] == g.litlen@[s] by {}
    assert forall|s: int| 0 <= s < 32 implies f.offset@[s] == g.offset@[s] by {}
    assert(f.litlen@ =~= g.litlen@);
    assert(f.offset@ =~= g.offset@);
}

/// With codes of the same lengths, a block is written in one way.
proof fn lemma_written_once(
    b0: Seq<bool>,
    b1: Seq<bool>,
    b2: Seq<bool>,
    h: Seq<u8>,
    base: int,
    n: int,
    its: Seq<(int, int)>,
    last: bool,
    c1: DeflateCodes,
    c2: DeflateCodes,
    plain: bool,
)
    requires
        c1.lens_litlen@ == c2.lens_litlen@,
        c1.lens_offset@ == c2.lens_offset@,
        block::written_best(b0, b1, h, base, n, its, last, c1, plain),
        block::written_best(b0, b2, h, base, n, its, last, c2, plain),
    ensures
        b1 == b2,
{
    reveal(block::written_best);
    let (p1, l1, o1) = choose|pk: BestPrecodeResult, nl: int, no: int|
        #![trigger pk.wf(c1.lens_litlen@.take(nl) + c1.lens_offset@.take(no))]
        {
            let ll = c1.lens_litlen@.take(nl);
            let ol = c1.lens_offset@.take(no);
            &&& 257 <= nl <= 288
            &&& nl > 257 ==> c1.lens_litlen@[nl - 1] > 0
            &&& forall|s: int| nl <= s < 288 ==> #[trigger] c1.lens_litlen@[s] == 0
            &&& 1 <= no <= 32
            &&& no > 1 ==> c1.lens_offset@[no - 1] > 0
            &&& forall|s: int| no <= s < 32 ==> #[trigger] c1.lens_offset@[s] == 0
            &&& pk.wf(ll + ol)
            &&& plain ==> pk.packs(ll + ol, PrecodeFlags::all_codes())
            &&& !plain ==> pk.packs(ll + ol, cost_model::best_flags(ll + ol, 32)) && pk.lowest(
                ll + ol,
            )
            &&& block::cheapest_way(b0, b1, h, base, n, its, last, ll, ol, pk)
        };
    let (p2, l2, o2) = choose|pk: BestPrecodeResult, nl: int, no: int|
        #![trigger pk.wf(c2.lens_litlen@.take(nl) + c2.lens_offset@.take(no))]
        {
            let ll = c2.lens_litlen@.take(nl);
            let ol = c2.lens_offset@.take(no);
            &&& 257 <= nl <= 288
            &&& nl > 257 ==> c2.lens_litlen@[nl - 1] > 0
            &&& forall|s: int| nl <= s < 288 ==> #[trigger] c2.lens_litlen@[s] == 0
            &&& 1 <= no <= 32
            &&& no > 1 ==> c2.lens_offset@[no - 1] > 0
            &&& forall|s: int| no <= s < 32 ==> #[trigger] c2.lens_offset@[s] == 0
            &&& pk.wf(ll + ol)
            &&& plain ==> pk.packs(ll + ol, PrecodeFlags::all_codes())
            &&& !plain ==> pk.packs(ll + ol, cost_model::best_flags(ll + ol, 32)) && pk.lowest(
                ll + ol,
            )
            &&& block::cheapest_way(b0, b2, h, base, n, its, last, ll, ol, pk)
        };
    if l1 < l2 {
        assert(c1.lens_litlen@[l2 - 1] == 0);
    }
    if l2 < l1 {
        assert(c2.lens_litlen@[l1 - 1] == 0);
    }
    if o1 < o2 {
        assert(c1.lens_offset@[o2 - 1] == 0);
    }
    if o2 < o1 {
        assert(c2.lens_offset@[o1 - 1] == 0);
    }
    let lens = c1.lens_litlen@.take(l1) + c1.lens_offset@.take(o1);
    lemma_packs_once(
        p1,
        p2,
        lens,
        if plain {
            PrecodeFlags::all_codes()
        } else {
            cost_model::best_flags(lens, 32)
        },
    );
}

/// A parse of a block is written in one way.
pub proof fn law_block_once(
    b0: Seq<bool>,
    b1: Seq<bool>,
    b2: Seq<bool>,
    h: Seq<u8>,
    base: int,
    n: int,
    its: Seq<(int, int)>,
    last: bool,
    plain: bool,
)
    requires
        block::coded_with(b0, b1, h, base, n, its, last, plain),
        block::coded_with(b0, b2, h, base, n, its, last, plain),
    ensures
        b1 == b2,
{
    reveal(block::coded_with);
    let (f1, c1) = choose|freqs: DeflateFreqs, codes: DeflateCodes|
        {
            &&& #[trigger] freqs.counts(h, base, its, 1)
            &&& block::built(freqs, codes)
            &&& #[trigger] block::written_best(b0, b1, h, base, n, its, last, codes, plain)
        };
    let (f2, c2) = choose|freqs: DeflateFreqs, codes: DeflateCodes|
        {
            &&& #[trigger] freqs.counts(h, base, its, 1)
            &&& block::built(freqs, codes)
            &&& #[trigger] block::written_best(b0, b2, h, base, n, its, last, codes, plain)
        };
    lemma_counts_once(f1, f2, h, base, its);
    reveal(block::built);
    law_lengths_once(f1.litlen@, 14, c1.lens_litlen@, c2.lens_litlen@);
    law_lengths_once(f1.offset@, 15, c1.lens_offset@, c2.lens_offset@);
    lemma_written_once(b0, b1, b2, h, base, n, its, last, c1, c2, plain);
}

/// A block lies within the data.
proof fn lemma_within(
    b0: Seq<bool>,
    b1: Seq<bool>,
    h: Seq<u8>,
    base: int,
    n: int,
    its: Seq<(int, int)>,
    last: bool,
)
    requires
        block::coded_as(b0, b1, h, base, n, its, last),
        0 <= base <= h.len(),
    ensures
        base + n <= h.len(),
{
    reveal(block::coded_with);
    items::lemma_parse_len(h, base, its);
}

/// Behind each block but the last there is another one, further on in the data.
proof fn lemma_fast_grows<M: HashMatchfinder>(
    c: fastest::Setup,
    h: Seq<u8>,
    b0: Seq<bool>,
    b1: Seq<bool>,
    last: bool,
    j: nat,
    k: nat,
)
    requires
        fastest::blocks_written::<M>(c, h, b0, b1, last, k),
        0 <= c.start <= h.len(),
        j <= k,
    ensures
        c.start <= fastest::after_blocks::<M>(c, h, j).next <= h.len(),
        j < k ==> fastest::after_blocks::<M>(c, h, j).next < h.len(),
    decreases k,
{
    if k > 0 {
        let b = choose|b: Seq<bool>|
            {
                &&& fastest::blocks_written::<M>(c, h, b0, b, last, (k - 1) as nat)
                &&& #[trigger] fastest::block_written::<M>(c, h, b, b1, last, k)
            };
        let begin = fastest::after_blocks::<M>(c, h, (k - 1) as nat).next;
        let run = fastest::after_blocks::<M>(c, h, k);
        lemma_fast_grows::<M>(c, h, b0, b, last, (k - 1) as nat, (k - 1) as nat);
        lemma_within(b, b1, h, begin, run.next - begin, run.its, last && run.next == h.len());
        if j < k {
            lemma_fast_grows::<M>(c, h, b0, b, last, j, (k - 1) as nat);
        }
    }
}

/// As many blocks are written in one way.
proof fn lemma_fast_blocks_once<M: HashMatchfinder>(
    c: fastest::Setup,
    h: Seq<u8>,
    b0: Seq<bool>,
    b1: Seq<bool>,
    b2: Seq<bool>,
    last: bool,
    k: nat,
)
    requires
        fastest::blocks_written::<M>(c, h, b0, b1, last, k),
        fastest::blocks_written::<M>(c, h, b0, b2, last, k),
    ensures
        b1 == b2,
    decreases k,
{
    if k > 0 {
        let x = choose|b: Seq<bool>|
            {
                &&& fastest::blocks_written::<M>(c, h, b0, b, last, (k - 1) as nat)
                &&& #[trigger] fastest::block_written::<M>(c, h, b, b1, last, k)
            };
        let y = choose|b: Seq<bool>|
            {
                &&& fastest::blocks_written::<M>(c, h, b0, b, last, (k - 1) as nat)
                &&& #[trigger] fastest::block_written::<M>(c, h, b, b2, last, k)
            };
        lemma_fast_blocks_once::<M>(c, h, b0, x, y, last, (k - 1) as nat);
        let begin = fastest::after_blocks::<M>(c, h, (k - 1) as nat).next;
        let run = fastest::after_blocks::<M>(c, h, k);
        law_block_once(
            x,
            b1,
            b2,
            h,
            begin,
            run.next - begin,
            run.its,
            last && run.next == h.len(),
            true,
        );
    }
}

/// With a hash table, data is written in one way.
pub proof fn law_fast_once<M: HashMatchfinder>(
    c: fastest::Setup,
    h: Seq<u8>,
    b0: Seq<bool>,
    b1: Seq<bool>,
    b2: Seq<bool>,
    last: bool,
)
    requires
        0 <= c.start <= h.len(),
        fastest::fast_coded::<M>(c, h, b0, b1, last),
        fastest::fast_coded::<M>(c, h, b0, b2, last),
    ensures
        b1 == b2,
{
    reveal(fastest::written_to);
    let n = h.len() as int;
    let (t1, s1) = choose|tab: Seq<i16>, base: int| #[trigger]
        fastest::written_to::<M>(c, h, b0, b1, last, n, tab, base);
    let (t2, s2) = choose|tab: Seq<i16>, base: int| #[trigger]
        fastest::written_to::<M>(c, h, b0, b2, last, n, tab, base);
    let j = choose|k: nat|
        {
            &&& #[trigger] fastest::blocks_written::<M>(c, h, b0, b1, last, k)
            &&& fastest::after_blocks::<M>(c, h, k).next == n
        };
    let k = choose|k: nat|
        {
            &&& #[trigger] fastest::blocks_written::<M>(c, h, b0, b2, last, k)
            &&& fastest::after_blocks::<M>(c, h, k).next == n
        };
    if j < k {
        lemma_fast_grows::<M>(c, h, b0, b2, last, j, k);
    }
    if k < j {
        lemma_fast_grows::<M>(c, h, b0, b1, last, k, j);
    }
    lemma_fast_blocks_once::<M>(c, h, b0, b1, b2, last, k);
}

/// The symbols of a block have codes of one kind.
proof fn lemma_codes_once(
    h: Seq<u8>,
    base: int,
    its: Seq<(int, int)>,
    ll: Seq<u8>,
    ol: Seq<u8>,
    ll2: Seq<u8>,
    ol2: Seq<u8>,
)
    requires
        block::codes_for(h, base, its, ll, ol),
        block::codes_for(h, base, its, ll2, ol2),
    ensures
        ll == ll2,
        ol == ol2,
{
    reveal(block::codes_for);
    let f = choose|f: DeflateFreqs|
        {
            &&& #[trigger] f.counts(h, base, its, 1)
            &&& ll.len() == 288
            &&& ol.len() == 32
            &&& huffman_model::lengths_for(f.litlen@, 14, ll)
            &&& huffman_model::lengths_for(f.offset@, 15, ol)
        };
    let g = choose|f: DeflateFreqs|
        {
            &&& #[trigger] f.counts(h, base, its, 1)
            &&& ll2.len() == 288
            &&& ol2.len() == 32
            &&& huffman_model::lengths_for(f.litlen@, 14, ll2)
            &&& huffman_model::lengths_for(f.offset@, 15, ol2)
        };
    lemma_counts_once(f, g, h, base, its);
    law_lengths_once(f.litlen@, 14, ll, ll2);
    law_lengths_once(f.offset@, 15, ol, ol2);
}

/// There is one number of blocks behind which a hash table has come to the end.
proof fn lemma_fast_number<M: HashMatchfinder>(
    c: fastest::Setup,
    h: Seq<u8>,
    b0: Seq<bool>,
    b: Seq<bool>,
    last: bool,
    j: nat,
    k: nat,
)
    requires
        0 <= c.start <= h.len(),
        fastest::blocks_written::<M>(c, h, b0, b, last, j),
        fastest::blocks_written::<M>(c, h, b0, b, last, k),
        fastest::after_blocks::<M>(c, h, j).next == h.len(),
        fastest::after_blocks::<M>(c, h, k).next == h.len(),
    ensures
        j == k,
{
    if j < k {
        lemma_fast_grows::<M>(c, h, b0, b, last, j, k);
    }
    if k < j {
        lemma_fast_grows::<M>(c, h, b0, b, last, k, j);
    }
}

/// With a hash table, data leaves the table in one state, and the codes of its last block.
pub proof fn law_fast_state_once<M: HashMatchfinder>(
    c: fastest::Setup,
    h: Seq<u8>,
    b0: Seq<bool>,
    b: Seq<bool>,
    last: bool,
    t1: Seq<i16>,
    t2: Seq<i16>,
    base1: int,
    base2: int,
    ll: Seq<u8>,
    ol: Seq<u8>,
    ll2: Seq<u8>,
    ol2: Seq<u8>,
)
    requires
        0 <= c.start <= h.len(),
        fastest::written_to::<M>(c, h, b0, b, last, h.len() as int, t1, base1),
        fastest::written_to::<M>(c, h, b0, b, last, h.len() as int, t2, base2),
        fastest::last_codes::<M>(c, h, b0, b, last, h.len() as int, ll, ol),
        fastest::last_codes::<M>(c, h, b0, b, last, h.len() as int, ll2, ol2),
    ensures
        t1 == t2,
        base1 == base2,
        ll == ll2,
        ol == ol2,
{
    reveal(fastest::written_to);
    reveal(fastest::last_codes);
    let n = h.len() as int;
    let i = choose|k: nat|
        {
            let run = fastest::after_blocks::<M>(c, h, k);
            &&& #[trigger] fastest::blocks_written::<M>(c, h, b0, b, last, k)
            &&& run.next == n
            &&& run.memory.tab == t1
            &&& run.memory.base == base1
            &&& k > 0 ==> c.start < n
        };
    let j = choose|k: nat|
        {
            let run = fastest::after_blocks::<M>(c, h, k);
            &&& #[trigger] fastest::blocks_written::<M>(c, h, b0, b, last, k)
            &&& run.next == n
            &&& run.memory.tab == t2
            &&& run.memory.base == base2
            &&& k > 0 ==> c.start < n
        };
    lemma_fast_number::<M>(c, h, b0, b, last, i, j);
    let k = choose|k: nat|
        {
            &&& #[trigger] fastest::blocks_written::<M>(c, h, b0, b, last, k)
            &&& k > 0
            &&& fastest::after_blocks::<M>(c, h, k).next == n
            &&& block::codes_for(
                h,
                fastest::after_blocks::<M>(c, h, (k - 1) as nat).next,
                fastest::after_blocks::<M>(c, h, k).its,
                ll,
                ol,
            )
        };
    let l = choose|k: nat|
        {
            &&& #[trigger] fastest::blocks_written::<M>(c, h, b0, b, last, k)
            &&& k > 0
            &&& fastest::after_blocks::<M>(c, h, k).next == n
            &&& block::codes_for(
                h,
                fastest::after_blocks::<M>(c, h, (k - 1) as nat).next,
                fastest::after_blocks::<M>(c, h, k).its,
                ll2,
                ol2,
            )
        };
    lemma_fast_number::<M>(c, h, b0, b, last, k, l);
    lemma_codes_once(
        h,
        fastest::after_blocks::<M>(c, h, (k - 1) as nat).next,
        fastest::after_blocks::<M>(c, h, k).its,
        ll,
        ol,
        ll2,
        ol2,
    );
}

/// Behind each block but the last there is another one, further on in the data.
proof fn lemma_chain_grows(
    c: chain_model::Setup,
    h: Seq<u8>,
    b0: Seq<bool>,
    b1: Seq<bool>,
    last: bool,
    j: nat,
    k: nat,
)
    requires
        chain_model::blocks_written(c, h, b0, b1, last, k),
        0 <= c.place.next <= h.len(),
        j <= k,
    ensures
        c.place.next <= chain_model::after_blocks(c, h, j).place.next <= h.len(),
        j < k ==> chain_model::after_blocks(c, h, j).place.next < h.len(),
    decreases k,
{
    if k > 0 {
        let b = choose|b: Seq<bool>|
            {
                &&& chain_model::blocks_written(c, h, b0, b, last, (k - 1) as nat)
                &&& #[trigger] chain_model::block_written(c, h, b, b1, last, k)
            };
        let begin = chain_model::after_blocks(c, h, (k - 1) as nat).place.next;
        let w = chain_model::after_blocks(c, h, k);
        lemma_chain_grows(c, h, b0, b, last, (k - 1) as nat, (k - 1) as nat);
        lemma_within(
            b,
            b1,
            h,
            begin,
            w.place.next - begin,
            w.its,
            last && w.place.next == h.len(),
        );
        if j < k {
            lemma_chain_grows(c, h, b0, b, last, j, (k - 1) as nat);
        }
    }
}

/// As many blocks are written in one way.
proof fn lemma_chain_blocks_once(
    c: chain_model::Setup,
    h: Seq<u8>,
    b0: Seq<bool>,
    b1: Seq<bool>,
    b2: Seq<bool>,
    last: bool,
    k: nat,
)
    requires
        chain_model::blocks_written(c, h, b0, b1, last, k),
        chain_model::blocks_written(c, h, b0, b2, last, k),
    ensures
        b1 == b2,
    decreases k,
{
    if k > 0 {
        let x = choose|b: Seq<bool>|
            {
                &&& chain_model::blocks_written(c, h, b0, b, last, (k - 1) as nat)
                &&& #[trigger] chain_model::block_written(c, h, b, b1, last, k)
            };
        let y = choose|b: Seq<bool>|
            {
                &&& chain_model::blocks_written(c, h, b0, b, last, (k - 1) as nat)
                &&& #[trigger] chain_model::block_written(c, h, b, b2, last, k)
            };
        lemma_chain_blocks_once(c, h, b0, x, y, last, (k - 1) as nat);
        let begin = chain_model::after_blocks(c, h, (k - 1) as nat).place.next;
        let w = chain_model::after_blocks(c, h, k);
        law_block_once(
            x,
            b1,
            b2,
            h,
            begin,
            w.place.next - begin,
            w.its,
            last && w.place.next == h.len(),
            true,
        );
    }
}

/// With hash chains, data is written in one way.
pub proof fn law_chain_once(
    c: chain_model::Setup,
    h: Seq<u8>,
    b0: Seq<bool>,
    b1: Seq<bool>,
    b2: Seq<bool>,
    last: bool,
)
    requires
        0 <= c.place.next <= h.len(),
        chain_model::chain_coded(c, h, b0, b1, last),
        chain_model::chain_coded(c, h, b0, b2, last),
    ensures
        b1 == b2,
{
    reveal(chain_model::written_to);
    let p = choose|p: chain_model::Place|
        p.next == h.len() && #[trigger] chain_model::written_to(c, h, b0, b1, last, p);
    let q = choose|p: chain_model::Place|
        p.next == h.len() && #[trigger] chain_model::written_to(c, h, b0, b2, last, p);
    let j = choose|k: nat|
        {
            &&& #[trigger] chain_model::blocks_written(c, h, b0, b1, last, k)
            &&& chain_model::after_blocks(c, h, k).place == p
        };
    let k = choose|k: nat|
        {
            &&& #[trigger] chain_model::blocks_written(c, h, b0, b2, last, k)
            &&& chain_model::after_blocks(c, h, k).place == q
        };
    if j < k {
        lemma_chain_grows(c, h, b0, b2, last, j, k);
    }
    if k < j {
        lemma_chain_grows(c, h, b0, b1, last, k, j);
    }
    lemma_chain_blocks_once(c, h, b0, b1, b2, last, k);
}

/// There is one number of blocks behind which hash chains have come to the end.
proof fn lemma_chain_number(
    c: chain_model::Setup,
    h: Seq<u8>,
    b0: Seq<bool>,
    b: Seq<bool>,
    last: bool,
    j: nat,
    k: nat,
)
    requires
        0 <= c.place.next <= h.len(),
        chain_model::blocks_written(c, h, b0, b, last, j),
        chain_model::blocks_written(c, h, b0, b, last, k),
        chain_model::after_blocks(c, h, j).place.next == h.len(),
        chain_model::after_blocks(c, h, k).place.next == h.len(),
    ensures
        j == k,
{
    if j < k {
        lemma_chain_grows(c, h, b0, b, last, j, k);
    }
    if k < j {
        lemma_chain_grows(c, h, b0, b, last, k, j);
    }
}

/// With hash chains, data leaves the tables in one state, and the codes of its last block.
pub proof fn law_chain_state_once(
    c: chain_model::Setup,
    h: Seq<u8>,
    b0: Seq<bool>,
    b: Seq<bool>,
    last: bool,
    p: chain_model::Place,
    q: chain_model::Place,
    ll: Seq<u8>,
    ol: Seq<u8>,
    ll2: Seq<u8>,
    ol2: Seq<u8>,
)
    requires
        0 <= c.place.next <= h.len(),
        p.next == h.len(),
        q.next == h.len(),
        chain_model::written_to(c, h, b0, b, last, p),
        chain_model::written_to(c, h, b0, b, last, q),
        chain_model::last_codes(c, h, b0, b, last, h.len() as int, ll, ol),
        chain_model::last_codes(c, h, b0, b, last, h.len() as int, ll2, ol2),
    ensures
        p == q,
        ll == ll2,
        ol == ol2,
{
    reveal(chain_model::written_to);
    reveal(chain_model::last_codes);
    let n = h.len() as int;
    let i = choose|k: nat|
        {
            &&& #[trigger] chain_model::blocks_written(c, h, b0, b, last, k)
            &&& chain_model::after_blocks(c, h, k).place == p
        };
    let j = choose|k: nat|
        {
            &&& #[trigger] chain_model::blocks_written(c, h, b0, b, last, k)
            &&& chain_model::after_blocks(c, h, k).place == q
        };
    lemma_chain_number(c, h, b0, b, last, i, j);
    let k = choose|k: nat|
        {
            &&& #[trigger] chain_model::blocks_written(c, h, b0, b, last, k)
            &&& k > 0
            &&& chain_model::after_blocks(c, h, k).place.next == n
            &&& block::codes_for(
                h,
                chain_model::after_blocks(c, h, (k - 1) as nat).place.next,
                chain_model::after_blocks(c, h, k).its,
                ll,
                ol,
            )
        };
    let l = choose|k: nat|
        {
            &&& #[trigger] chain_model::blocks_written(c, h, b0, b, last, k)
            &&& k > 0
            &&& chain_model::after_blocks(c, h, k).place.next == n
            &&& block::codes_for(
                h,
                chain_model::after_blocks(c, h, (k - 1) as nat).place.next,
                chain_model::after_blocks(c, h, k).its,
                ll2,
                ol2,
            )
        };
    lemma_chain_number(c, h, b0, b, last, k, l);
    lemma_codes_once(
        h,
        chain_model::after_blocks(c, h, (k - 1) as nat).place.next,
        chain_model::after_blocks(c, h, k).its,
        ll,
        ol,
        ll2,
        ol2,
    );
}

/// Behind each block but the last there is another one, further on in the data.
proof fn lemma_near_grows(
    c: near_model::Setup,
    h: Seq<u8>,
    b0: Seq<bool>,
    b1: Seq<bool>,
    last: bool,
    j: nat,
    k: nat,
)
    requires
        near_model::blocks_written(c, h, b0, b1, last, k),
        j <= k,
        0 <= c.first.begin <= h.len(),
    ensures
        c.first.begin <= near_model::after_blocks(c, h, j).begin,
        near_model::after_blocks(c, h, k).begin <= h.len(),
        j < k ==> near_model::after_blocks(c, h, j).begin < near_model::after_blocks(c, h, k).begin,
    decreases k,
{
    if k > 0 {
        let b = choose|b: Seq<bool>|
            {
                &&& near_model::blocks_written(c, h, b0, b, last, (k - 1) as nat)
                &&& #[trigger] near_model::block_written(c, h, b, b1, last, k)
            };
        let s = near_model::after_blocks(c, h, (k - 1) as nat);
        let (t, its) = near_model::near_block(s, h, c.depth, c.tuning);
        lemma_near_grows(c, h, b0, b, last, (k - 1) as nat, (k - 1) as nat);
        lemma_within(
            b,
            b1,
            h,
            s.begin,
            t.begin - s.begin,
            its,
            last && t.begin == h.len(),
        );
        if j < k {
            lemma_near_grows(c, h, b0, b, last, j, (k - 1) as nat);
        }
    }
}

/// As many blocks are written in one way.
proof fn lemma_near_blocks_once(
    c: near_model::Setup,
    h: Seq<u8>,
    b0: Seq<bool>,
    b1: Seq<bool>,
    b2: Seq<bool>,
    last: bool,
    k: nat,
)
    requires
        near_model::blocks_written(c, h, b0, b1, last, k),
        near_model::blocks_written(c, h, b0, b2, last, k),
    ensures
        b1 == b2,
    decreases k,
{
    if k > 0 {
        let x = choose|b: Seq<bool>|
            {
                &&& near_model::blocks_written(c, h, b0, b, last, (k - 1) as nat)
                &&& #[trigger] near_model::block_written(c, h, b, b1, last, k)
            };
        let y = choose|b: Seq<bool>|
            {
                &&& near_model::blocks_written(c, h, b0, b, last, (k - 1) as nat)
                &&& #[trigger] near_model::block_written(c, h, b, b2, last, k)
            };
        lemma_near_blocks_once(c, h, b0, x, y, last, (k - 1) as nat);
        let s = near_model::after_blocks(c, h, (k - 1) as nat);
        let (t, its) = near_model::near_block(s, h, c.depth, c.tuning);
        law_block_once(
            x,
            b1,
            b2,
            h,
            s.begin,
            t.begin - s.begin,
            its,
            last && t.begin == h.len(),
            true,
        );
    }
}

/// With binary trees, data is written in one way.
pub proof fn law_near_once(
    c: near_model::Setup,
    h: Seq<u8>,
    b0: Seq<bool>,
    b1: Seq<bool>,
    b2: Seq<bool>,
    last: bool,
)
    requires
        0 <= c.first.begin <= h.len(),
        near_model::near_coded(c, h, b0, b1, last),
        near_model::near_coded(c, h, b0, b2, last),
    ensures
        b1 == b2,
{
    reveal(near_model::written_to);
    let p = choose|s: near_model::Near|
        s.begin == h.len() && #[trigger] near_model::written_to(c, h, b0, b1, last, s);
    let q = choose|s: near_model::Near|
        s.begin == h.len() && #[trigger] near_model::written_to(c, h, b0, b2, last, s);
    let j = choose|k: nat|
        {
            &&& #[trigger] near_model::blocks_written(c, h, b0, b1, last, k)
            &&& near_model::after_blocks(c, h, k) == p
        };
    let k = choose|k: nat|
        {
            &&& #[trigger] near_model::blocks_written(c, h, b0, b2, last, k)
            &&& near_model::after_blocks(c, h, k) == q
        };
    if j < k {
        lemma_near_grows(c, h, b0, b2, last, j, k);
    }
    if k < j {
        lemma_near_grows(c, h, b0, b1, last, k, j);
    }
    lemma_near_blocks_once(c, h, b0, b1, b2, last, k);
}

/// A first block at the beginning of the data does not depend on what is left of an earlier
/// run, nor do the blocks behind it.
proof fn lemma_near_forgets(
    c: near_model::Setup,
    d: near_model::Setup,
    h: Seq<u8>,
    b0: Seq<bool>,
    b1: Seq<bool>,
    last: bool,
    k: nat,
)
    requires
        c.first.begin == 0,
        d == (near_model::Setup {
            first: near_model::Near {
                prices: d.first.prices,
                prev: d.first.prev,
                prev_num: d.first.prev_num,
                ..c.first
            },
            ..c
        }),
        near_model::blocks_written(c, h, b0, b1, last, k),
    ensures
        near_model::blocks_written(d, h, b0, b1, last, k),
        k > 0 ==> near_model::after_blocks(c, h, k) == near_model::after_blocks(d, h, k),
    decreases k,
{
    if k > 0 {
        let b = choose|b: Seq<bool>|
            {
                &&& near_model::blocks_written(c, h, b0, b, last, (k - 1) as nat)
                &&& #[trigger] near_model::block_written(c, h, b, b1, last, k)
            };
        lemma_near_forgets(c, d, h, b0, b, last, (k - 1) as nat);
        if k == 1 {
            assert(near_model::after_blocks(c, h, 0) == c.first);
            assert(near_model::after_blocks(d, h, 0) == d.first);
            assert(near_model::near_block(c.first, h, c.depth, c.tuning)
                == near_model::near_block(d.first, h, d.depth, d.tuning));
        }
        assert(near_model::block_written(d, h, b, b1, last, k));
    }
}

/// A run from the beginning of the data does not depend on what is left of an earlier one.
pub proof fn law_near_fresh(
    h: Seq<u8>,
    nice: int,
    depth: int,
    tuning: near_model::Tuning,
    m: near_model::Memory,
    n: near_model::Memory,
    b0: Seq<bool>,
    b1: Seq<bool>,
    last: bool,
)
    requires
        near_model::near_coded(
            near_model::setup_at(h, 0, nice, depth, tuning, m),
            h,
            b0,
            b1,
            last,
        ),
    ensures
        near_model::near_coded(
            near_model::setup_at(h, 0, nice, depth, tuning, n),
            h,
            b0,
            b1,
            last,
        ),
{
    reveal(near_model::written_to);
    let c = near_model::setup_at(h, 0, nice, depth, tuning, m);
    let d = near_model::setup_at(h, 0, nice, depth, tuning, n);
    let s = choose|s: near_model::Near|
        s.begin == h.len() && #[trigger] near_model::written_to(c, h, b0, b1, last, s);
    let k = choose|k: nat|
        {
            &&& #[trigger] near_model::blocks_written(c, h, b0, b1, last, k)
            &&& near_model::after_blocks(c, h, k) == s
        };
    lemma_near_forgets(c, d, h, b0, b1, last, k);
    assert(near_model::written_to(d, h, b0, b1, last, near_model::after_blocks(d, h, k)));
}

/// Bytes with the same bits are the same.
pub proof fn lemma_bits_once(a: Seq<u8>, b: Seq<u8>)
    requires
        bits::to_bits(a) == bits::to_bits(b),
    ensures
        a == b,
{
    assert(bits::to_bits(a).len() == 8 * a.len());
    assert(bits::to_bits(b).len() == 8 * b.len());
    assert forall|i: int| 0 <= i < a.len() implies a[i] == b[i] by {
        bits::lemma_to_bits_byte(a, i);
        bits::lemma_to_bits_byte(b, i);
    }
    assert(a =~= b);
}

/// The levels that always write the same of the same data from `start` on. The near-optimal
/// ones depend on what is left of an earlier run where there is data before `start`.
pub open spec fn fixed_output(level: CompressionLevel, start: int) -> bool {
    &&& level.wf()
    &&& level.strategy == InternalStrategy::NearOptimal ==> start == 0
}

/// No level uses the static codes alone.
proof fn lemma_no_static(level: CompressionLevel)
    requires
        level.wf(),
    ensures
        level.strategy != InternalStrategy::StaticTurbo,
{
}

/// Each strategy codes the data in one way.
proof fn lemma_coded_once(
    level: CompressionLevel,
    p: SearchParams,
    room1: int,
    room2: int,
    h: Seq<u8>,
    start: int,
    b1: Seq<bool>,
    b2: Seq<bool>,
    last: bool,
)
    requires
        fixed_output(level, start),
        level.strategy != InternalStrategy::Store,
        0 <= start <= h.len(),
        compressor::coded_by(level, p, room1, h, start, Seq::empty(), b1, last),
        compressor::coded_by(level, p, room2, h, start, Seq::empty(), b2, last),
    ensures
        b1 == b2,
{
    let e = Seq::<bool>::empty();
    reveal(compressor::coded_by);
    let nice = p.nice_match_length as int;
    lemma_no_static(level);
    match level.strategy {
        InternalStrategy::Turbo => {
            law_fast_once::<TurboMatchfinder>(
                fastest::setup_at::<TurboMatchfinder>(h, start, nice, false),
                h,
                e,
                b1,
                b2,
                last,
            );
        },
        InternalStrategy::FastHt => {
            law_fast_once::<FastHtMatchfinder>(
                fastest::setup_at::<FastHtMatchfinder>(h, start, nice, false),
                h,
                e,
                b1,
                b2,
                last,
            );
        },
        InternalStrategy::HtGreedy => {
            law_fast_once::<HtMatchfinder>(
                fastest::setup_at::<HtMatchfinder>(h, start, nice, true),
                h,
                e,
                b1,
                b2,
                last,
            );
        },
        InternalStrategy::Greedy => {
            let c = chain_model::setup_at(h, start, p, Lookahead::Greedy);
            law_chain_once(c, h, e, b1, b2, last);
        },
        InternalStrategy::Lazy => {
            let c = chain_model::setup_at(h, start, p, Lookahead::Lazy);
            law_chain_once(c, h, e, b1, b2, last);
        },
        InternalStrategy::Lazy2 => {
            let c = chain_model::setup_at(h, start, p, Lookahead::Lazy2);
            law_chain_once(c, h, e, b1, b2, last);
        },
        InternalStrategy::NearOptimal => {
            let depth = p.max_search_depth as int;
            let t = near_model::tuning_of(level);
            let m1 = choose|m: near_model::Memory|
                #[trigger] near_model::near_coded(
                    near_model::setup_at(h, start, nice, depth, t, m),
                    h,
                    e,
                    b1,
                    last,
                );
            let m2 = choose|m: near_model::Memory|
                #[trigger] near_model::near_coded(
                    near_model::setup_at(h, start, nice, depth, t, m),
                    h,
                    e,
                    b2,
                    last,
                );
            law_near_fresh(h, nice, depth, t, m1, m2, e, b1, last);
            law_near_once(
                near_model::setup_at(h, start, nice, depth, t, m2),
                h,
                e,
                b1,
                b2,
                last,
            );
        },
        _ => {},
    }
}

/// A level always writes the same of the same data, however large the output is: what two
/// compressors of the level write of it are the same bytes, whatever they wrote before.
///
/// The near-optimal levels have to start at the beginning of the data.
pub proof fn law_level_writes_once(
    level: CompressionLevel,
    room1: int,
    room2: int,
    d1: Seq<u8>,
    d2: Seq<u8>,
    h: Seq<u8>,
    start: int,
    last: bool,
)
    requires
        fixed_output(level, start),
        0 <= start <= h.len(),
        compressor::level_writes(level, room1, d1, h, start, last),
        compressor::level_writes(level, room2, d2, h, start, last),
    ensures
        d1 == d2,
{
    reveal(compressor::level_writes);
    let s = level.strategy;
    let p = choose|sp: SearchParams|
        {
            &&& compressor::level_params(level, sp)
            &&& #[trigger] compressor::holds_by(level, sp, room1, d1, h, start, last)
        };
    let q = choose|sp: SearchParams|
        {
            &&& compressor::level_params(level, sp)
            &&& #[trigger] compressor::holds_by(level, sp, room2, d2, h, start, last)
        };
    assert(p == q);
    if s != InternalStrategy::Store {
        let e = Seq::<bool>::empty();
        let b1 = choose|b: Seq<bool>|
            {
                &&& #[trigger] compressor::coded_by(level, p, room1, h, start, e, b, last)
                &&& bits::to_bits(d1) == if last {
                    pack::padded(b)
                } else {
                    stored::with_stored(b, Seq::empty(), false)
                }
            };
        let b2 = choose|b: Seq<bool>|
            {
                &&& #[trigger] compressor::coded_by(level, p, room2, h, start, e, b, last)
                &&& bits::to_bits(d2) == if last {
                    pack::padded(b)
                } else {
                    stored::with_stored(b, Seq::empty(), false)
                }
            };
        lemma_coded_once(level, p, room1, room2, h, start, b1, b2, last);
    }
    lemma_bits_once(d1, d2);
}

/// A block makes the bits no fewer.
proof fn lemma_block_longer(
    b: Seq<bool>,
    b1: Seq<bool>,
    h: Seq<u8>,
    base: int,
    n: int,
    its: Seq<(int, int)>,
    last: bool,
)
    requires
        block::coded_as(b, b1, h, base, n, its, last),
    ensures
        b.len() <= b1.len(),
{
    reveal(block::coded_with);
    reveal(block::written_best);
    let data = h.subrange(base, base + n);
    stored::lemma_with_stored_len(b, data, last);
    if data.len() > 0 {
        stored::lemma_stored_end(b.len() as int, data.len() as int);
        assert(stored::stored_blocks(data.len() as int) >= 1);
    }
    assert(b.len() <= stored::stored_end(b.len() as int, data.len() as int));
    let (freqs, codes) = choose|freqs: DeflateFreqs, codes: DeflateCodes|
        {
            &&& items::parse_ok(h, base, its)
            &&& items::end_of(base, its) == base + n
            &&& #[trigger] freqs.counts(h, base, its, 1)
            &&& block::built(freqs, codes)
            &&& #[trigger] block::written_best(b, b1, h, base, n, its, last, codes, true)
        };
    assert(block::written_best(b, b1, h, base, n, its, last, codes, true));
}

/// Of the blocks behind `b0`, the first ones take no more than all of them.
proof fn lemma_fast_part<M: HashMatchfinder>(
    c: fastest::Setup,
    h: Seq<u8>,
    b0: Seq<bool>,
    b1: Seq<bool>,
    last: bool,
    j: nat,
    k: nat,
) -> (b: Seq<bool>)
    requires
        fastest::blocks_written::<M>(c, h, b0, b1, last, k),
        j <= k,
    ensures
        fastest::blocks_written::<M>(c, h, b0, b, last, j),
        b.len() <= b1.len(),
    decreases k,
{
    if j == k {
        b1
    } else {
        let b = choose|b: Seq<bool>|
            {
                &&& fastest::blocks_written::<M>(c, h, b0, b, last, (k - 1) as nat)
                &&& #[trigger] fastest::block_written::<M>(c, h, b, b1, last, k)
            };
        let begin = fastest::after_blocks::<M>(c, h, (k - 1) as nat).next;
        let w = fastest::after_blocks::<M>(c, h, k);
        let fin = last && w.next == h.len();
        lemma_block_longer(b, b1, h, begin, w.next - begin, w.its, fin);
        lemma_fast_part::<M>(c, h, b0, b, last, j, (k - 1) as nat)
    }
}

/// Where a first part of the blocks does not fit, all of them do not.
pub proof fn lemma_fast_spills<M: HashMatchfinder>(
    c: fastest::Setup,
    h: Seq<u8>,
    b0: Seq<bool>,
    b: Seq<bool>,
    last: bool,
    room: int,
)
    requires
        0 <= c.start <= h.len(),
        fastest::spills::<M>(c, h, b0, last, room),
        fastest::fast_coded::<M>(c, h, b0, b, last),
    ensures
        block::too_long(b, room),
{
    reveal(fastest::written_to);
    reveal(fastest::spills);
    let (b1, j) = choose|b1: Seq<bool>, k: nat|
        #[trigger] fastest::blocks_written::<M>(c, h, b0, b1, last, k) && block::too_long(b1, room);
    let k = choose|k: nat|
        {
            &&& #[trigger] fastest::blocks_written::<M>(c, h, b0, b, last, k)
            &&& fastest::after_blocks::<M>(c, h, k).next == h.len()
        };
    if k < j {
        lemma_fast_grows::<M>(c, h, b0, b1, last, k, j);
    }
    let b2 = lemma_fast_part::<M>(c, h, b0, b, last, j, k);
    lemma_fast_blocks_once::<M>(c, h, b0, b1, b2, last, j);
}

/// Of the blocks behind `b0`, the first ones take no more than all of them.
proof fn lemma_chain_part(
    c: chain_model::Setup,
    h: Seq<u8>,
    b0: Seq<bool>,
    b1: Seq<bool>,
    last: bool,
    j: nat,
    k: nat,
) -> (b: Seq<bool>)
    requires
        chain_model::blocks_written(c, h, b0, b1, last, k),
        j <= k,
    ensures
        chain_model::blocks_written(c, h, b0, b, last, j),
        b.len() <= b1.len(),
    decreases k,
{
    if j == k {
        b1
    } else {
        let b = choose|b: Seq<bool>|
            {
                &&& chain_model::blocks_written(c, h, b0, b, last, (k - 1) as nat)
                &&& #[trigger] chain_model::block_written(c, h, b, b1, last, k)
            };
        let begin = chain_model::after_blocks(c, h, (k - 1) as nat).place.next;
        let w = chain_model::after_blocks(c, h, k);
        let fin = last && w.place.next == h.len();
        lemma_block_longer(b, b1, h, begin, w.place.next - begin, w.its, fin);
        lemma_chain_part(c, h, b0, b, last, j, (k - 1) as nat)
    }
}

/// Where a first part of the blocks does not fit, all of them do not.
pub proof fn lemma_chain_spills(
    c: chain_model::Setup,
    h: Seq<u8>,
    b0: Seq<bool>,
    b: Seq<bool>,
    last: bool,
    room: int,
)
    requires
        0 <= c.place.next <= h.len(),
        chain_model::spills(c, h, b0, last, room),
        chain_model::chain_coded(c, h, b0, b, last),
    ensures
        block::too_long(b, room),
{
    reveal(chain_model::written_to);
    reveal(chain_model::spills);
    let (b1, j) = choose|b1: Seq<bool>, k: nat|
        #[trigger] chain_model::blocks_written(c, h, b0, b1, last, k) && block::too_long(b1, room);
    let k = choose|k: nat|
        {
            &&& #[trigger] chain_model::blocks_written(c, h, b0, b, last, k)
            &&& chain_model::after_blocks(c, h, k).place.next == h.len()
        };
    if k < j {
        lemma_chain_grows(c, h, b0, b1, last, k, j);
    }
    let b2 = lemma_chain_part(c, h, b0, b, last, j, k);
    lemma_chain_blocks_once(c, h, b0, b1, b2, last, j);
}

/// Of the blocks behind `b0`, the first ones take no more than all of them.
proof fn lemma_near_part(
    c: near_model::Setup,
    h: Seq<u8>,
    b0: Seq<bool>,
    b1: Seq<bool>,
    last: bool,
    j: nat,
    k: nat,
) -> (b: Seq<bool>)
    requires
        near_model::blocks_written(c, h, b0, b1, last, k),
        j <= k,
    ensures
        near_model::blocks_written(c, h, b0, b, last, j),
        b.len() <= b1.len(),
    decreases k,
{
    if j == k {
        b1
    } else {
        let b = choose|b: Seq<bool>|
            {
                &&& near_model::blocks_written(c, h, b0, b, last, (k - 1) as nat)
                &&& #[trigger] near_model::block_written(c, h, b, b1, last, k)
            };
        let s = near_model::after_blocks(c, h, (k - 1) as nat);
        let (t, its) = near_model::near_block(s, h, c.depth, c.tuning);
        let fin = last && t.begin == h.len();
        lemma_block_longer(b, b1, h, s.begin, t.begin - s.begin, its, fin);
        lemma_near_part(c, h, b0, b, last, j, (k - 1) as nat)
    }
}

/// The first `j` blocks take no more than the `k` blocks of all of the data.
#[verifier::spinoff_prover]
proof fn lemma_near_all(
    c: near_model::Setup,
    h: Seq<u8>,
    b0: Seq<bool>,
    b1: Seq<bool>,
    b: Seq<bool>,
    last: bool,
    j: nat,
    k: nat,
)
    requires
        0 <= c.first.begin <= h.len(),
        near_model::blocks_written(c, h, b0, b1, last, j),
        near_model::blocks_written(c, h, b0, b, last, k),
        near_model::after_blocks(c, h, k).begin == h.len(),
    ensures
        b1.len() <= b.len(),
{
    if k < j {
        lemma_near_grows(c, h, b0, b1, last, k, j);
    } else {
        let b2 = lemma_near_part(c, h, b0, b, last, j, k);
        lemma_near_blocks_once(c, h, b0, b1, b2, last, j);
    }
}

/// Where a first part of the blocks does not fit, all of them do not.
#[verifier::spinoff_prover]
#[verifier::rlimit(60)]
proof fn lemma_near_spills(
    c: near_model::Setup,
    h: Seq<u8>,
    b0: Seq<bool>,
    b: Seq<bool>,
    last: bool,
    room: int,
)
    requires
        0 <= c.first.begin <= h.len(),
        near_model::spills(c, h, b0, last, room),
        near_model::near_coded(c, h, b0, b, last),
    ensures
        block::too_long(b, room),
{
    let p = choose|s: near_model::Near|
        s.begin == h.len() && #[trigger] near_model::written_to(c, h, b0, b, last, s);
    reveal(near_model::written_to);
    let k = choose|k: nat|
        {
            &&& #[trigger] near_model::blocks_written(c, h, b0, b, last, k)
            &&& near_model::after_blocks(c, h, k) == p
        };
    assert(near_model::blocks_written(c, h, b0, b, last, k));
    assert(near_model::after_blocks(c, h, k).begin == h.len());
    reveal(near_model::spills);
    let (b1, j) = choose|b1: Seq<bool>, k: nat|
        #[trigger] near_model::blocks_written(c, h, b0, b1, last, k) && block::too_long(b1, room);
    lemma_near_all(c, h, b0, b1, b, last, j, k);
}

/// Where a first part of what a strategy codes does not fit, all of it does not.
proof fn lemma_spills_by(
    level: CompressionLevel,
    p: SearchParams,
    room1: int,
    room2: int,
    h: Seq<u8>,
    start: int,
    b: Seq<bool>,
    last: bool,
)
    requires
        fixed_output(level, start),
        level.strategy != InternalStrategy::Store,
        0 <= start <= h.len(),
        compressor::coded_by(level, p, room1, h, start, Seq::empty(), b, last),
        compressor::spills_by(level, p, room2, h, start, Seq::empty(), last),
    ensures
        block::too_long(b, room2),
{
    let e = Seq::<bool>::empty();
    reveal(compressor::coded_by);
    reveal(compressor::spills_by);
    let nice = p.nice_match_length as int;
    lemma_no_static(level);
    match level.strategy {
        InternalStrategy::Turbo => {
            let c = fastest::setup_at::<TurboMatchfinder>(h, start, nice, false);
            lemma_fast_spills::<TurboMatchfinder>(c, h, e, b, last, room2);
        },
        InternalStrategy::FastHt => {
            let c = fastest::setup_at::<FastHtMatchfinder>(h, start, nice, false);
            lemma_fast_spills::<FastHtMatchfinder>(c, h, e, b, last, room2);
        },
        InternalStrategy::HtGreedy => {
            let c = fastest::setup_at::<HtMatchfinder>(h, start, nice, true);
            lemma_fast_spills::<HtMatchfinder>(c, h, e, b, last, room2);
        },
        InternalStrategy::Greedy => {
            let c = chain_model::setup_at(h, start, p, Lookahead::Greedy);
            lemma_chain_spills(c, h, e, b, last, room2);
        },
        InternalStrategy::Lazy => {
            let c = chain_model::setup_at(h, start, p, Lookahead::Lazy);
            lemma_chain_spills(c, h, e, b, last, room2);
        },
        InternalStrategy::Lazy2 => {
            let c = chain_model::setup_at(h, start, p, Lookahead::Lazy2);
            lemma_chain_spills(c, h, e, b, last, room2);
        },
        InternalStrategy::NearOptimal => {
            let depth = p.max_search_depth as int;
            let t = near_model::tuning_of(level);
            let m1 = choose|m: near_model::Memory|
                #[trigger] near_model::near_coded(
                    near_model::setup_at(h, start, nice, depth, t, m),
                    h,
                    e,
                    b,
                    last,
                );
            let m2 = choose|m: near_model::Memory|
                #[trigger] near_model::spills(
                    near_model::setup_at(h, start, nice, depth, t, m),
                    h,
                    e,
                    last,
                    room2,
                );
            law_near_fresh(h, nice, depth, t, m1, m2, e, b, last);
            lemma_near_spills(
                near_model::setup_at(h, start, nice, depth, t, m2),
                h,
                e,
                b,
                last,
                room2,
            );
        },
        _ => {},
    }
}

/// Data fits in any output that is as long as what a compressor of the level writes of it:
/// there, no other compressor of the level runs out of room.
///
/// The near-optimal levels have to start at the beginning of the data.
pub proof fn law_level_fits(
    level: CompressionLevel,
    room1: int,
    room2: int,
    data: Seq<u8>,
    h: Seq<u8>,
    start: int,
    last: bool,
)
    requires
        fixed_output(level, start),
        level.strategy != InternalStrategy::Store,
        0 <= start <= h.len(),
        compressor::level_writes(level, room1, data, h, start, last),
        data.len() <= room2,
    ensures
        !compressor::level_overruns(level, room2, h, start, last),
{
    reveal(compressor::level_writes);
    reveal(compressor::level_overruns);
    let e = Seq::<bool>::empty();
    let p = choose|sp: SearchParams|
        {
            &&& compressor::level_params(level, sp)
            &&& #[trigger] compressor::holds_by(level, sp, room1, data, h, start, last)
        };
    let b = choose|b: Seq<bool>|
        {
            &&& #[trigger] compressor::coded_by(level, p, room1, h, start, e, b, last)
            &&& bits::to_bits(data) == if last {
                pack::padded(b)
            } else {
                stored::with_stored(b, Seq::empty(), false)
            }
        };
    stored::lemma_with_stored_len(b, Seq::empty(), false);
    assert(bits::to_bits(data).len() == 8 * data.len());
    assert(!block::too_long(b, room2));
    if compressor::level_overruns(level, room2, h, start, last) {
        let q = choose|sp: SearchParams|
            {
                &&& compressor::level_params(level, sp)
                &&& #[trigger] compressor::overruns_by(level, sp, room2, h, start, last)
            };
        assert(p == q);
        if compressor::spills_by(level, p, room2, h, start, e, last) {
            lemma_spills_by(level, p, room1, room2, h, start, b, last);
        } else {
            let b2 = choose|b: Seq<bool>|
                {
                    &&& #[trigger] compressor::coded_by(level, p, room2, h, start, e, b, last)
                    &&& block::too_long(
                        if last {
                            b
                        } else {
                            stored::with_stored(b, Seq::empty(), false)
                        },
                        room2,
                    )
                };
            lemma_coded_once(level, p, room1, room2, h, start, b, b2, last);
        }
    }
}

} // verus!
