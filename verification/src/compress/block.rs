//! Block flushing: choose the best block type and encode it.

use crate::bits;
use crate::codes;
use crate::compress::bitstream::OutputBitstream;
use crate::compress::cost_model;
use crate::compress::emit;
use crate::compress::huffman;
use crate::compress::huffman::{gen_codewords, make_huffman_code};
use crate::compress::huffman_model;
use crate::compress::items;
use crate::compress::items::{get_length_slot, get_offset_slot};
use crate::compress::near_optimal;
use crate::compress::near_optimal::OptimumNode;
use crate::compress::precode;
use crate::compress::precode::{
    compute_precode_items_best, pack_lens, BestPrecodeResult, PrecodeFlags, EXTRA_PRECODE_BITS,
};
use crate::compress::sequences;
use crate::compress::sequences::Sequence;
use crate::compress::stored;
use crate::compress::stored::write_uncompressed_blocks;
use crate::compress::writer;
use crate::compress::writer::{put_bits, put_symbol, put_type};
use crate::constants::{
    DEFLATE_LENGTH_BASE, DEFLATE_LENGTH_EXTRA_BITS, DEFLATE_OFFSET_BASE, DEFLATE_OFFSET_EXTRA_BITS,
    DEFLATE_PRECODE_LENS_PERMUTATION,
};
use crate::stream;
use vstd::arithmetic::power2::*;
use vstd::prelude::*;

verus! {

/// Codes: Huffman codewords and lengths for litlen + offset alphabets.
#[derive(Clone, Copy)]
pub struct DeflateCodes {
    pub codewords_litlen: [u32; 288],
    pub codewords_offset: [u32; 32],
    pub lens_litlen: [u8; 288],
    pub lens_offset: [u8; 32],
}

impl Default for DeflateCodes {
    fn default() -> (r: Self)
        ensures
            forall|s: int| 0 <= s < 288 ==> #[trigger] r.lens_litlen@[s] == 0,
            forall|s: int| 0 <= s < 32 ==> #[trigger] r.lens_offset@[s] == 0,
    {
        DeflateCodes {
            codewords_litlen: [0u32; 288],
            codewords_offset: [0u32; 32],
            lens_litlen: [0u8; 288],
            lens_offset: [0u8; 32],
        }
    }
}

impl DeflateCodes {
    /// Both codes are complete and have their codewords.
    pub open spec fn wf(&self) -> bool {
        &&& emit::code_ok(self.lens_litlen@)
        &&& emit::code_ok(self.lens_offset@)
        &&& codes::has_codewords(self.lens_litlen@, self.codewords_litlen@)
        &&& codes::has_codewords(self.lens_offset@, self.codewords_offset@)
    }

    /// No codeword is longer than codewords may be.
    pub open spec fn bounded(&self) -> bool {
        codes::bounded(self.lens_litlen@) && codes::bounded(self.lens_offset@)
    }

    /// The codes are the static ones.
    pub open spec fn is_static(&self) -> bool {
        &&& self.wf()
        &&& self.lens_litlen@ == stream::static_litlen_lens()
        &&& self.lens_offset@ == stream::static_offset_lens()
    }
}

/// Symbol frequency counters.
#[derive(Clone, Copy)]
pub struct DeflateFreqs {
    pub litlen: [u32; 288],
    pub offset: [u32; 32],
}

impl Default for DeflateFreqs {
    fn default() -> (r: Self)
        ensures
            r.zero(),
    {
        DeflateFreqs { litlen: [0u32; 288], offset: [0u32; 32] }
    }
}

impl DeflateFreqs {
    /// All counters are zero.
    pub open spec fn zero(&self) -> bool {
        &&& forall|s: int| 0 <= s < 288 ==> #[trigger] self.litlen@[s] == 0
        &&& forall|s: int| 0 <= s < 32 ==> #[trigger] self.offset@[s] == 0
    }

    /// The counters hold how often each symbol occurs in a parse, plus `eob`
    /// end-of-block symbols.
    pub open spec fn counts(
        &self,
        h: Seq<u8>,
        base: int,
        its: Seq<(int, int)>,
        eob: int,
    ) -> bool {
        &&& forall|s: int|
            0 <= s < 288 ==> #[trigger] self.litlen@[s] == items::litlen_count(h, base, its, s) + if s
                == 256 {
                eob
            } else {
                0
            }
        &&& forall|s: int| 0 <= s < 32 ==> #[trigger] self.offset@[s] == items::offset_count(its, s)
    }

    /// Set all counters to zero.
    pub fn reset(&mut self)
        ensures
            final(self).zero(),
    {
        self.litlen = [0u32; 288];
        self.offset = [0u32; 32];
    }
}

/// The codes are Huffman codes for the counters, with lengths up to 14 and 15: each symbol
/// that occurs has a codeword, and a code none of whose codewords would be longer than what
/// is allowed is the cheapest one.
#[verifier::opaque]
pub open spec fn built(freqs: DeflateFreqs, codes: DeflateCodes) -> bool {
    &&& codes.wf()
    &&& forall|s: int|
        0 <= s < 288 && freqs.litlen@[s] > 0 ==> #[trigger] codes.lens_litlen@[s] > 0
    &&& forall|s: int|
        0 <= s < 32 && freqs.offset@[s] > 0 ==> #[trigger] codes.lens_offset@[s] > 0
    &&& (forall|s: int| 0 <= s < 288 ==> #[trigger] codes.lens_litlen@[s] < 14)
        ==> huffman::cheapest(freqs.litlen@, codes.lens_litlen@)
    &&& (forall|s: int| 0 <= s < 32 ==> #[trigger] codes.lens_offset@[s] < 15)
        ==> huffman::cheapest(freqs.offset@, codes.lens_offset@)
    &&& huffman_model::fits(freqs.litlen@, 14) ==> huffman::cheapest(
        freqs.litlen@,
        codes.lens_litlen@,
    )
    &&& huffman_model::fits(freqs.offset@, 15) ==> huffman::cheapest(
        freqs.offset@,
        codes.lens_offset@,
    )
    &&& huffman_model::lengths_for(freqs.litlen@, 14, codes.lens_litlen@)
    &&& huffman_model::lengths_for(freqs.offset@, 15, codes.lens_offset@)
}

/// The lengths are those of the codes for the symbols of the block at `base`.
#[verifier::opaque]
pub open spec fn codes_for(
    h: Seq<u8>,
    base: int,
    its: Seq<(int, int)>,
    ll: Seq<u8>,
    ol: Seq<u8>,
) -> bool {
    exists|freqs: DeflateFreqs|
        {
            &&& #[trigger] freqs.counts(h, base, its, 1)
            &&& ll.len() == 288
            &&& ol.len() == 32
            &&& huffman_model::lengths_for(freqs.litlen@, 14, ll)
            &&& huffman_model::lengths_for(freqs.offset@, 15, ol)
        }
}

/// Build litlen and offset Huffman codes from frequency tables.
pub fn make_huffman_codes(freqs: &DeflateFreqs, codes: &mut DeflateCodes)
    requires
        forall|s: int| 0 <= s < 288 ==> #[trigger] freqs.litlen@[s] < 0x40_0000,
        forall|s: int| 0 <= s < 32 ==> #[trigger] freqs.offset@[s] < 0x40_0000,
    ensures
        final(codes).wf(),
        forall|s: int| 0 <= s < 288 ==> #[trigger] final(codes).lens_litlen@[s] <= 14,
        forall|s: int|
            0 <= s < 288 && freqs.litlen@[s] > 0 ==> #[trigger] final(codes).lens_litlen@[s] > 0,
        forall|s: int|
            0 <= s < 32 && freqs.offset@[s] > 0 ==> #[trigger] final(codes).lens_offset@[s] > 0,
        (forall|s: int| 0 <= s < 288 ==> #[trigger] final(codes).lens_litlen@[s] < 14)
            ==> huffman::cheapest(freqs.litlen@, final(codes).lens_litlen@),
        (forall|s: int| 0 <= s < 32 ==> #[trigger] final(codes).lens_offset@[s] < 15)
            ==> huffman::cheapest(freqs.offset@, final(codes).lens_offset@),
        built(*freqs, *final(codes)),
{
    proof {
        lemma2_to64();
        huffman::lemma_used_bound(freqs.litlen@, 288);
        huffman::lemma_used_bound(freqs.offset@, 32);
    }
    make_huffman_code(288, 14, &freqs.litlen, &mut codes.lens_litlen, &mut codes.codewords_litlen);
    make_huffman_code(32, 15, &freqs.offset, &mut codes.lens_offset, &mut codes.codewords_offset);
    proof {
        reveal(built);
    }
}

/// Initialize the static Huffman codes defined by the DEFLATE format, and the
/// frequencies that lead to them.
pub fn init_static_codes(freqs: &mut DeflateFreqs, codes: &mut DeflateCodes)
    ensures
        final(codes).is_static(),
        forall|s: int|
            0 <= s < 288 ==> #[trigger] final(freqs).litlen@[s] == (if s < 144 || s >= 280 {
                2u32
            } else if s < 256 {
                1
            } else {
                4
            }),
        forall|s: int| 0 <= s < 32 ==> #[trigger] final(freqs).offset@[s] == 1,
{
    let mut i: usize = 0;
    while i < 288
        invariant
            i <= 288,
            forall|s: int|
                0 <= s < i ==> #[trigger] freqs.litlen@[s] == (if s < 144 || s >= 280 {
                    2u32
                } else if s < 256 {
                    1
                } else {
                    4
                }),
            forall|s: int|
                0 <= s < i ==> #[trigger] codes.lens_litlen@[s] == stream::static_litlen_lens()[s],
        decreases 288 - i,
    {
        let f: u32;
        let l: u8;
        if i < 144 || i >= 280 {
            f = 2;
            l = 8;
        } else if i < 256 {
            f = 1;
            l = 9;
        } else {
            f = 4;
            l = 7;
        }
        freqs.litlen[i] = f;
        codes.lens_litlen[i] = l;
        i = i + 1;
    }
    i = 0;
    while i < 32
        invariant
            i <= 32,
            forall|s: int| 0 <= s < i ==> #[trigger] freqs.offset@[s] == 1,
            forall|s: int|
                0 <= s < i ==> #[trigger] codes.lens_offset@[s] == stream::static_offset_lens()[s],
            forall|s: int|
                0 <= s < 288 ==> #[trigger] freqs.litlen@[s] == (if s < 144 || s >= 280 {
                    2u32
                } else if s < 256 {
                    1
                } else {
                    4
                }),
            forall|s: int|
                0 <= s < 288 ==> #[trigger] codes.lens_litlen@[s] == stream::static_litlen_lens()[s],
        decreases 32 - i,
    {
        freqs.offset[i] = 1;
        codes.lens_offset[i] = 5;
        i = i + 1;
    }
    proof {
        stream::lemma_static_codes();
        assert(codes.lens_litlen@ =~= stream::static_litlen_lens());
        assert(codes.lens_offset@ =~= stream::static_offset_lens());
    }
    let ll: [u8; 288] = codes.lens_litlen;
    let ol: [u8; 32] = codes.lens_offset;
    gen_codewords(&ll, &mut codes.codewords_litlen);
    gen_codewords(&ol, &mut codes.codewords_offset);
}

/// `codes` holds the codewords of the codes `ll` and `ol`.
pub open spec fn writes_with(codes: DeflateCodes, ll: Seq<u8>, ol: Seq<u8>) -> bool {
    &&& emit::code_ok(ll)
    &&& emit::code_ok(ol)
    &&& ll.len() <= 288
    &&& ol.len() <= 32
    &&& forall|s: int| #[trigger]
        codes::used(ll, s) ==> codes.lens_litlen@[s] == ll[s] && codes.codewords_litlen@[s]
            == bits::rev(codes::codeword(ll, s), ll[s] as nat)
    &&& forall|s: int| #[trigger]
        codes::used(ol, s) ==> codes.lens_offset@[s] == ol[s] && codes.codewords_offset@[s]
            == bits::rev(codes::codeword(ol, s), ol[s] as nat)
}

/// Write a match: the length symbol and its extra bits, then the offset symbol
/// and its extra bits.
pub fn put_match(
    os: &mut OutputBitstream<'_>,
    codes: &DeflateCodes,
    len: u32,
    offset: u32,
    offset_slot: usize,
    ll: Ghost<Seq<u8>>,
    ol: Ghost<Seq<u8>>,
)
    requires
        old(os).flushed(),
        writes_with(*codes, ll@, ol@),
        3 <= len <= 258,
        1 <= offset <= 32768,
        offset_slot == items::offset_slot_of(offset as int),
        codes::used(ll@, 257 + items::length_slot_of(len as int)),
        codes::used(ol@, items::offset_slot_of(offset as int)),
    ensures
        writer::wrote(*old(os), *final(os), emit::match_bits(ll@, ol@, len as int, offset as int)),
        final(final(os).buf)@ == final(old(os).buf)@,
{
    let slot: usize = get_length_slot(len) as usize;
    proof {
        items::lemma_slots(len as int, offset as int);
    }
    let ghost o0 = *os;
    put_symbol(os, &codes.codewords_litlen, &codes.lens_litlen, 257 + slot, ll);
    let ghost o1 = *os;
    put_bits(os, len - DEFLATE_LENGTH_BASE[slot] as u32, DEFLATE_LENGTH_EXTRA_BITS[slot] as u32);
    let ghost o2 = *os;
    put_symbol(os, &codes.codewords_offset, &codes.lens_offset, offset_slot, ol);
    let ghost o3 = *os;
    put_bits(
        os,
        offset - DEFLATE_OFFSET_BASE[offset_slot],
        DEFLATE_OFFSET_EXTRA_BITS[offset_slot] as u32,
    );
    proof {
        let a = emit::code_bits(ll@, 257 + slot);
        let b = bits::num_bits(
            len - DEFLATE_LENGTH_BASE@[slot as int],
            DEFLATE_LENGTH_EXTRA_BITS@[slot as int] as nat,
        );
        let c = emit::code_bits(ol@, offset_slot as int);
        let d = bits::num_bits(
            offset - DEFLATE_OFFSET_BASE@[offset_slot as int],
            DEFLATE_OFFSET_EXTRA_BITS@[offset_slot as int] as nat,
        );
        writer::lemma_wrote_trans(o0, o1, o2, a, b);
        writer::lemma_wrote_trans(o0, o2, o3, a + b, c);
        writer::lemma_wrote_trans(o0, o3, *os, a + b + c, d);
    }
}

/// The sequences hold the slots of their offsets.
pub open spec fn seqs_ok(seqs: Seq<Sequence>) -> bool {
    forall|k: int|
        0 <= k < seqs.len() && (#[trigger] seqs[k]).len() > 0 ==> seqs[k].offset_slot
            == items::offset_slot_of(seqs[k].offset as int) && seqs[k].offset > 0
}

/// Write the literals and matches of a block that is given as sequences.
fn write_sequences(
    os: &mut OutputBitstream<'_>,
    codes: &DeflateCodes,
    input: &[u8],
    base: usize,
    seqs: &[Sequence],
    ll: Ghost<Seq<u8>>,
    ol: Ghost<Seq<u8>>,
)
    requires
        old(os).flushed(),
        writes_with(*codes, ll@, ol@),
        base <= input@.len(),
        seqs_ok(seqs@),
        items::parse_ok(input@, base as int, sequences::items_of(seqs@)),
        emit::covers(input@, base as int, sequences::items_of(seqs@), ll@, ol@),
    ensures
        writer::wrote(
            *old(os),
            *final(os),
            emit::parse_bits(input@, base as int, sequences::items_of(seqs@), ll@, ol@),
        ),
        final(final(os).buf)@ == final(old(os).buf)@,
{
    let ghost its = sequences::items_of(seqs@);
    let ghost o0 = *os;
    let ghost fin = final(os.buf)@;
    let ghost h = input@;
    let ghost b = base as int;
    let mut pos: usize = base;
    let mut k: usize = 0;
    let total: usize = input.len();
    let ghost mut n: int = 0;
    proof {
        writer::lemma_wrote_nothing(o0);
        assert(its.take(0) =~= Seq::empty());
        assert(seqs@.take(0) =~= Seq::empty());
        items::lemma_parse_len(h, b, its);
    }
    while k < seqs.len()
        invariant
            k <= seqs@.len(),
            writes_with(*codes, ll@, ol@),
            h == input@,
            total == h.len(),
            b == base,
            b <= h.len(),
            its == sequences::items_of(seqs@),
            seqs_ok(seqs@),
            items::parse_ok(h, b, its),
            emit::covers(h, b, its, ll@, ol@),
            n == sequences::items_of(seqs@.take(k as int)).len(),
            0 <= n <= its.len(),
            k == seqs@.len() ==> n == its.len(),
            pos == items::end_of(b, its.take(n)),
            os.flushed(),
            writer::wrote(o0, *os, emit::parse_bits(h, b, its.take(n), ll@, ol@)),
            final(os.buf)@ == fin,
        decreases seqs@.len() - k,
    {
        let seq: Sequence = seqs[k];
        let lits: u32 = seq.litrunlen();
        let length: u32 = seq.length();
        let ghost n0 = n;
        proof {
            sequences::lemma_items_at(seqs@, k as int);
            if k + 1 == seqs@.len() {
                assert(seqs@.take(k + 1) =~= seqs@);
            }
        }
        let mut j: u32 = 0;
        while j < lits
            invariant
                j <= lits,
                lits == seq.lits(),
                writes_with(*codes, ll@, ol@),
                h == input@,
                b == base,
                b <= h.len(),
                items::parse_ok(h, b, its),
                emit::covers(h, b, its, ll@, ol@),
                n == n0 + j,
                0 <= n0,
                n0 + seq.items().len() <= its.len(),
                its.subrange(n0, n0 + seq.items().len()) == seq.items(),
                pos == items::end_of(b, its.take(n)),
                os.flushed(),
                writer::wrote(o0, *os, emit::parse_bits(h, b, its.take(n), ll@, ol@)),
                final(os.buf)@ == fin,
            decreases lits - j,
        {
            proof {
                assert(seq.items()[j as int] == (1int, 0int));
                assert(its[n] == its.subrange(n0, n0 + seq.items().len())[j as int]);
                emit::lemma_parse_at(h, b, its, n, ll@, ol@);
            }
            let lit: usize = input[pos] as usize;
            let ghost o1 = *os;
            put_symbol(os, &codes.codewords_litlen, &codes.lens_litlen, lit, ll);
            proof {
                writer::lemma_wrote_trans(
                    o0,
                    o1,
                    *os,
                    emit::parse_bits(h, b, its.take(n), ll@, ol@),
                    emit::code_bits(ll@, lit as int),
                );
                n = n + 1;
            }
            pos = pos + 1;
            j = j + 1;
        }
        if length > 0 {
            proof {
                assert(seq.items()[lits as int] == (seq.len(), seq.offset as int));
                assert(its[n] == its.subrange(n0, n0 + seq.items().len())[lits as int]);
                emit::lemma_parse_at(h, b, its, n, ll@, ol@);
                assert(seqs@[k as int].len() > 0);
            }
            let ghost o1 = *os;
            put_match(os, codes, length, seq.offset as u32, seq.offset_slot as usize, ll, ol);
            proof {
                writer::lemma_wrote_trans(
                    o0,
                    o1,
                    *os,
                    emit::parse_bits(h, b, its.take(n), ll@, ol@),
                    emit::match_bits(ll@, ol@, length as int, seq.offset as int),
                );
                n = n + 1;
            }
            pos = pos + length as usize;
        }
        k = k + 1;
    }
    proof {
        assert(its.take(n) =~= its);
    }
}

/// Write the literals and matches of a block that is given as a path of nodes.
fn write_optimum(
    os: &mut OutputBitstream<'_>,
    codes: &DeflateCodes,
    input: &[u8],
    base: usize,
    nodes: &[OptimumNode],
    block_length: usize,
    ll: Ghost<Seq<u8>>,
    ol: Ghost<Seq<u8>>,
)
    requires
        old(os).flushed(),
        writes_with(*codes, ll@, ol@),
        base + block_length <= input@.len(),
        block_length <= nodes@.len(),
        near_optimal::literals_ok(nodes@, input@, base as int, block_length as int),
        ({
            let its = near_optimal::path_items(nodes@, 0, block_length as int);
            &&& items::parse_ok(input@, base as int, its)
            &&& items::end_of(base as int, its) == base + block_length
            &&& emit::covers(input@, base as int, its, ll@, ol@)
        }),
    ensures
        writer::wrote(
            *old(os),
            *final(os),
            emit::parse_bits(
                input@,
                base as int,
                near_optimal::path_items(nodes@, 0, block_length as int),
                ll@,
                ol@,
            ),
        ),
        final(final(os).buf)@ == final(old(os).buf)@,
{
    let ghost end = block_length as int;
    let ghost its = near_optimal::path_items(nodes@, 0, end);
    let ghost o0 = *os;
    let ghost fin = final(os.buf)@;
    let ghost h = input@;
    let ghost b = base as int;
    let mut cur: usize = 0;
    let ghost mut n: int = 0;
    proof {
        writer::lemma_wrote_nothing(o0);
        assert(its.take(0) =~= Seq::empty());
        assert(its.skip(0) =~= its);
    }
    while cur < block_length
        invariant
            writes_with(*codes, ll@, ol@),
            h == input@,
            b == base,
            end == block_length,
            b + end <= h.len(),
            end <= nodes@.len(),
            near_optimal::literals_ok(nodes@, h, b, end),
            items::parse_ok(h, b, its),
            items::end_of(b, its) == b + end,
            emit::covers(h, b, its, ll@, ol@),
            0 <= n <= its.len(),
            its.skip(n) == near_optimal::path_items(nodes@, cur as int, end),
            b + cur == items::end_of(b, its.take(n)),
            cur <= end,
            os.flushed(),
            writer::wrote(o0, *os, emit::parse_bits(h, b, its.take(n), ll@, ol@)),
            final(os.buf)@ == fin,
        decreases end - cur,
    {
        let item: u32 = nodes[cur].item;
        let length: u32 = item % 512;
        let offset: u32 = item / 512;
        let ghost node = nodes@[cur as int];
        proof {
            if n == its.len() {
                assert(its.take(n) =~= its);
            }
            assert(n < its.len());
            emit::lemma_parse_at(h, b, its, n, ll@, ol@);
            if node.len() <= 0 {
                assert(its.skip(n).len() == 0);
            }
            assert(its.skip(n)[0] == node.it());
            assert(its[n] == node.it());
            assert(its.skip(n + 1) =~= its.skip(n).skip(1));
            assert(its.skip(n).skip(1) =~= near_optimal::path_items(nodes@, cur + node.len(), end));
        }
        let ghost o1 = *os;
        if length == 1 {
            put_symbol(os, &codes.codewords_litlen, &codes.lens_litlen, offset as usize, ll);
        } else {
            let slot: u32 = get_offset_slot(offset);
            put_match(os, codes, length, offset, slot as usize, ll, ol);
        }
        proof {
            writer::lemma_wrote_trans(
                o0,
                o1,
                *os,
                emit::parse_bits(h, b, its.take(n), ll@, ol@),
                if its[n].1 == 0 {
                    emit::code_bits(ll@, h[b + cur] as int)
                } else {
                    emit::match_bits(ll@, ol@, its[n].0, its[n].1)
                },
            );
            n = n + 1;
        }
        cur = cur + length as usize;
    }
    proof {
        assert(its.skip(n).len() == 0);
        assert(its.take(n) =~= its);
    }
}

/// Write the precode lengths of a dynamic block's header.
fn put_precode(os: &mut OutputBitstream<'_>, pk: &BestPrecodeResult)
    requires
        old(os).flushed(),
        4 <= pk.num_explicit_lens <= 19,
        forall|s: int| 0 <= s < 19 ==> #[trigger] pk.precode_lens@[s] <= 7,
    ensures
        writer::wrote(
            *old(os),
            *final(os),
            precode::field_bits(pk.precode_lens@, pk.num_explicit_lens as nat),
        ),
        final(final(os).buf)@ == final(old(os).buf)@,
{
    let ghost o0 = *os;
    let ghost fin = final(os.buf)@;
    let ghost pl = pk.precode_lens@;
    let mut k: usize = 0;
    proof {
        writer::lemma_wrote_nothing(o0);
        lemma2_to64();
    }
    while k < pk.num_explicit_lens
        invariant
            k <= pk.num_explicit_lens <= 19,
            pl == pk.precode_lens@,
            pl.len() == 19,
            forall|s: int| 0 <= s < 19 ==> #[trigger] pl[s] <= 7,
            pow2(3) == 8,
            os.flushed(),
            writer::wrote(o0, *os, precode::field_bits(pl, k as nat)),
            final(os.buf)@ == fin,
        decreases pk.num_explicit_lens - k,
    {
        let sym: usize = DEFLATE_PRECODE_LENS_PERMUTATION[k] as usize;
        let ghost o1 = *os;
        assert(sym < 19);
        put_bits(os, pk.precode_lens[sym] as u32, 3);
        proof {
            writer::lemma_wrote_trans(
                o0,
                o1,
                *os,
                precode::field_bits(pl, k as nat),
                bits::num_bits(pl[sym as int] as int, 3),
            );
        }
        k = k + 1;
    }
}

/// Write the code lengths of a dynamic block's header.
fn put_lens(os: &mut OutputBitstream<'_>, pk: &BestPrecodeResult, lens: Ghost<Seq<u8>>)
    requires
        old(os).flushed(),
        pk.wf(lens@),
    ensures
        writer::wrote(
            *old(os),
            *final(os),
            precode::item_bits(pk.precode_items@, pk.precode_lens@),
        ),
        final(final(os).buf)@ == final(old(os).buf)@,
{
    let ghost o0 = *os;
    let ghost fin = final(os.buf)@;
    let ghost pl = pk.precode_lens@;
    let ghost its = pk.precode_items@;
    let mut k: usize = 0;
    proof {
        writer::lemma_wrote_nothing(o0);
        assert(its.take(0) =~= Seq::empty());
    }
    while k < pk.precode_items.len()
        invariant
            k <= its.len(),
            pk.wf(lens@),
            pl == pk.precode_lens@,
            its == pk.precode_items@,
            os.flushed(),
            writer::wrote(o0, *os, precode::item_bits(its.take(k as int), pl)),
            final(os.buf)@ == fin,
        decreases its.len() - k,
    {
        let item: u32 = pk.precode_items[k];
        let sym: usize = (item % 32) as usize;
        proof {
            precode::lemma_item_at(its, k as int);
            lemma2_to64();
            assert(its.take(k + 1).drop_last() =~= its.take(k as int));
        }
        let ghost o1 = *os;
        put_symbol(os, &pk.precode_codewords, &pk.precode_lens, sym, Ghost(pl));
        let ghost o2 = *os;
        put_bits(os, item / 32, EXTRA_PRECODE_BITS[sym] as u32);
        proof {
            let a = precode::item_bits(its.take(k as int), pl);
            let c = emit::code_bits(pl, sym as int);
            let d = bits::num_bits(item as int / 32, EXTRA_PRECODE_BITS@[sym as int] as nat);
            writer::lemma_wrote_trans(o0, o1, o2, a, c);
            writer::lemma_wrote_trans(o0, o2, *os, a + c, d);
        }
        k = k + 1;
    }
    proof {
        assert(its.take(k as int) =~= its);
    }
}

/// Write the header of a dynamic block.
fn put_header(
    os: &mut OutputBitstream<'_>,
    is_final_block: bool,
    num_litlen_syms: usize,
    num_offset_syms: usize,
    pk: &BestPrecodeResult,
    lens: Ghost<Seq<u8>>,
)
    requires
        old(os).flushed(),
        257 <= num_litlen_syms <= 288,
        1 <= num_offset_syms <= 32,
        pk.wf(lens@),
    ensures
        writer::wrote(
            *old(os),
            *final(os),
            precode::header_bits(
                is_final_block,
                num_litlen_syms as int,
                num_offset_syms as int,
                pk.num_explicit_lens as int,
                pk.precode_items@,
                pk.precode_lens@,
            ),
        ),
        final(final(os).buf)@ == final(old(os).buf)@,
{
    proof {
        lemma2_to64();
    }
    let ghost o0 = *os;
    put_type(os, is_final_block, 2);
    let ghost o1 = *os;
    put_bits(os, num_litlen_syms as u32 - 257, 5);
    let ghost o2 = *os;
    put_bits(os, num_offset_syms as u32 - 1, 5);
    let ghost o3 = *os;
    put_bits(os, pk.num_explicit_lens as u32 - 4, 4);
    let ghost o4 = *os;
    put_precode(os, pk);
    let ghost o5 = *os;
    put_lens(os, pk, lens);
    proof {
        let t = precode::type_bits(is_final_block, 2);
        let f1 = bits::num_bits(num_litlen_syms - 257, 5);
        let f2 = bits::num_bits(num_offset_syms - 1, 5);
        let f3 = bits::num_bits(pk.num_explicit_lens - 4, 4);
        let f4 = precode::field_bits(pk.precode_lens@, pk.num_explicit_lens as nat);
        let f5 = precode::item_bits(pk.precode_items@, pk.precode_lens@);
        writer::lemma_wrote_trans(o0, o1, o2, t, f1);
        writer::lemma_wrote_trans(o0, o2, o3, t + f1, f2);
        writer::lemma_wrote_trans(o0, o3, o4, t + f1 + f2, f3);
        writer::lemma_wrote_trans(o0, o4, o5, t + f1 + f2 + f3, f4);
        writer::lemma_wrote_trans(o0, o5, *os, t + f1 + f2 + f3 + f4, f5);
    }
}

/// The sum over the first `n` literal/length symbols of their counters times
/// their bits.
pub open spec fn litlen_freq_sum(f: Seq<u32>, ll: Seq<u8>, n: nat) -> int
    decreases n,
{
    if n == 0 {
        0
    } else {
        litlen_freq_sum(f, ll, (n - 1) as nat) + f[n - 1] * (ll[n - 1] + items::litlen_extra(n - 1))
    }
}

/// The sum over the first `n` offset symbols of their counters times their bits.
pub open spec fn offset_freq_sum(f: Seq<u32>, ol: Seq<u8>, n: nat) -> int
    decreases n,
{
    if n == 0 {
        0
    } else {
        offset_freq_sum(f, ol, (n - 1) as nat) + f[n - 1] * (ol[n - 1]
            + DEFLATE_OFFSET_EXTRA_BITS@[n - 1])
    }
}

proof fn lemma_litlen_freq_sum(
    freqs: DeflateFreqs,
    h: Seq<u8>,
    base: int,
    its: Seq<(int, int)>,
    eob: int,
    ll: Seq<u8>,
    n: nat,
)
    requires
        freqs.counts(h, base, its, eob),
        eob == 0 || eob == 1,
        n <= 288,
        ll.len() == 288,
    ensures
        litlen_freq_sum(freqs.litlen@, ll, n) == items::litlen_sum(h, base, its, ll, n) + if n > 256 && eob == 1 {
            ll[256] as int
        } else {
            0
        },
    decreases n,
{
    if n > 0 {
        lemma_litlen_freq_sum(freqs, h, base, its, eob, ll, (n - 1) as nat);
        let c = items::litlen_count(h, base, its, n - 1);
        let w = ll[n - 1] + items::litlen_extra(n - 1);
        assert(freqs.litlen@[n - 1] == c + if n - 1 == 256 {
            eob
        } else {
            0
        });
        if n - 1 == 256 && eob == 1 {
            assert((c + 1) * w == c * w + w) by (nonlinear_arith);
        }
    }
}

proof fn lemma_offset_freq_sum(
    freqs: DeflateFreqs,
    h: Seq<u8>,
    base: int,
    its: Seq<(int, int)>,
    eob: int,
    ol: Seq<u8>,
    n: nat,
)
    requires
        freqs.counts(h, base, its, eob),
        n <= 32,
    ensures
        offset_freq_sum(freqs.offset@, ol, n) == items::offset_sum(its, ol, n),
    decreases n,
{
    if n > 0 {
        lemma_offset_freq_sum(freqs, h, base, its, eob, ol, (n - 1) as nat);
        assert(freqs.offset@[n - 1] == items::offset_count(its, n - 1));
    }
}

/// The number of bits of a block's symbols: their counters times the lengths of
/// their codewords and of their extra bits.
pub fn symbol_cost(freqs: &DeflateFreqs, codes: &DeflateCodes) -> (r: u64)
    requires
        codes::bounded(codes.lens_litlen@),
        codes::bounded(codes.lens_offset@),
    ensures
        r == litlen_freq_sum(freqs.litlen@, codes.lens_litlen@, 288) + offset_freq_sum(
            freqs.offset@,
            codes.lens_offset@,
            32,
        ),
        r <= 320 * 0x20_0000_0000,
{
    let mut r: u64 = 0;
    let mut s: usize = 0;
    while s < 288
        invariant
            s <= 288,
            codes::bounded(codes.lens_litlen@),
            r == litlen_freq_sum(freqs.litlen@, codes.lens_litlen@, s as nat),
            r <= s * 0x20_0000_0000,
        decreases 288 - s,
    {
        let extra: u64 = if s >= 257 && s < 286 {
            DEFLATE_LENGTH_EXTRA_BITS[s - 257] as u64
        } else {
            0
        };
        assert(extra <= 5);
        assert(codes.lens_litlen@[s as int] <= 15);
        let w: u64 = codes.lens_litlen[s] as u64 + extra;
        let f: u64 = freqs.litlen[s] as u64;
        assert(0 <= f * w <= 0x20_0000_0000) by (nonlinear_arith)
            requires
                0 <= f <= 0xffff_ffff,
                0 <= w <= 20,
        ;
        r = r + f * w;
        s = s + 1;
    }
    let ghost a = r as int;
    s = 0;
    while s < 32
        invariant
            s <= 32,
            codes::bounded(codes.lens_offset@),
            0 <= a <= 288 * 0x20_0000_0000,
            r == a + offset_freq_sum(freqs.offset@, codes.lens_offset@, s as nat),
            r <= a + s * 0x20_0000_0000,
        decreases 32 - s,
    {
        assert(DEFLATE_OFFSET_EXTRA_BITS@[s as int] <= 14);
        assert(codes.lens_offset@[s as int] <= 15);
        let w: u64 = codes.lens_offset[s] as u64 + DEFLATE_OFFSET_EXTRA_BITS[s] as u64;
        let f: u64 = freqs.offset[s] as u64;
        assert(0 <= f * w <= 0x20_0000_0000) by (nonlinear_arith)
            requires
                0 <= f <= 0xffff_ffff,
                0 <= w <= 29,
        ;
        r = r + f * w;
        s = s + 1;
    }
    r
}

/// A block of the static codes behind `b0` decodes to its data.
#[verifier::spinoff_prover]
#[verifier::rlimit(60)]
pub proof fn lemma_static_block(b0: Seq<bool>, h: Seq<u8>, base: int, its: Seq<(int, int)>, last: bool)
    requires
        0 <= base <= h.len(),
        items::parse_ok(h, base, its),
        emit::code_ok(stream::static_litlen_lens()),
        emit::code_ok(stream::static_offset_lens()),
    ensures
        ({
            let ll = stream::static_litlen_lens();
            let ol = stream::static_offset_lens();
            let body = emit::parse_bits(h, base, its, ll, ol) + emit::code_bits(ll, 256);
            let b1 = b0 + (precode::type_bits(last, 1) + body);
            &&& emit::covers(h, base, its, ll, ol)
            &&& emit::extends(b0, h.take(base), b1, h.take(items::end_of(base, its)), last)
            &&& b1.len() == b0.len() + 3 + items::cost(h, base, its, ll, ol) + 7
        }),
{
    let ll = stream::static_litlen_lens();
    let ol = stream::static_offset_lens();
    let t = precode::type_bits(last, 1);
    let body = emit::parse_bits(h, base, its, ll, ol) + emit::code_bits(ll, 256);
    let b1 = b0 + (t + body);
    let out0 = h.take(base);
    let out1 = h.take(items::end_of(base, its));
    items::lemma_counts_range(h, base, its);
    items::lemma_parse_len(h, base, its);
    assert(emit::covers(h, base, its, ll, ol));
    assert(codes::used(ll, 256));
    emit::lemma_parse_leads(Seq::empty(), h, base, its, ll, ol);
    emit::lemma_symbol_read(Seq::empty(), ll, 256, Seq::empty());
    precode::lemma_type_read(b0, last, 1, Seq::empty());
    assert forall|z: Seq<bool>, ext: Seq<bool>, cap: int|
        emit::whole(z) && cap >= out1.len() implies #[trigger] stream::block(
        z + b1 + ext,
        (z.len() + b0.len()) as int,
        out0,
        cap,
    ) == (stream::Step::Next { p: (z.len() + b1.len()) as int, out: out1 }) by {
        precode::lemma_type_read(z + b0, last, 1, body + ext);
        assert(z + b0 + t + (body + ext) =~= z + b1 + ext);
        emit::lemma_body(z + b0 + t, h, base, its, ll, ol);
        assert(z + b0 + t + body + ext =~= z + b1 + ext);
    }
    assert(b1.take(b0.len() as int) =~= b0);
    assert(b1[b0.len() as int] == t[0]);
    emit::lemma_chain_block(b0, out0, b1, out1, last);
}

/// A dynamic block behind `b0` decodes to its data.
#[verifier::spinoff_prover]
#[verifier::rlimit(60)]
pub proof fn lemma_dynamic_block(
    b0: Seq<bool>,
    h: Seq<u8>,
    base: int,
    its: Seq<(int, int)>,
    last: bool,
    ll: Seq<u8>,
    ol: Seq<u8>,
    pk: BestPrecodeResult,
)
    requires
        0 <= base <= h.len(),
        items::parse_ok(h, base, its),
        emit::code_ok(ll),
        emit::code_ok(ol),
        257 <= ll.len() <= 288,
        1 <= ol.len() <= 32,
        pk.wf(ll + ol),
        emit::covers(h, base, its, ll, ol),
        codes::used(ll, 256),
    ensures
        ({
            let hb = precode::header_bits(
                last,
                ll.len() as int,
                ol.len() as int,
                pk.num_explicit_lens as int,
                pk.precode_items@,
                pk.precode_lens@,
            );
            let body = emit::parse_bits(h, base, its, ll, ol) + emit::code_bits(ll, 256);
            let b1 = b0 + (hb + body);
            &&& emit::extends(b0, h.take(base), b1, h.take(items::end_of(base, its)), last)
            &&& b1.len() == b0.len() + 3 + pk.cost + items::cost(h, base, its, ll, ol) + ll[256]
        }),
{
    let nl = ll.len() as int;
    let no = ol.len() as int;
    let np = pk.num_explicit_lens as int;
    let pits = pk.precode_items@;
    let pl = pk.precode_lens@;
    let hb = precode::header_bits(last, nl, no, np, pits, pl);
    let body = emit::parse_bits(h, base, its, ll, ol) + emit::code_bits(ll, 256);
    let b1 = b0 + (hb + body);
    let out0 = h.take(base);
    let out1 = h.take(items::end_of(base, its));
    items::lemma_parse_len(h, base, its);
    assert((ll + ol).take(nl) =~= ll);
    assert((ll + ol).skip(nl) =~= ol);
    emit::lemma_parse_leads(Seq::empty(), h, base, its, ll, ol);
    emit::lemma_symbol_read(Seq::empty(), ll, 256, Seq::empty());
    precode::lemma_header_read(b0, last, nl, no, np, pits, pl, Seq::empty());
    assert forall|z: Seq<bool>, ext: Seq<bool>, cap: int|
        emit::whole(z) && cap >= out1.len() implies #[trigger] stream::block(
        z + b1 + ext,
        (z.len() + b0.len()) as int,
        out0,
        cap,
    ) == (stream::Step::Next { p: (z.len() + b1.len()) as int, out: out1 }) by {
        precode::lemma_header_read(z + b0, last, nl, no, np, pits, pl, body + ext);
        assert(z + b0 + hb + (body + ext) =~= z + b1 + ext);
        emit::lemma_body(z + b0 + hb, h, base, its, ll, ol);
        assert(z + b0 + hb + body + ext =~= z + b1 + ext);
    }
    assert(b1.take(b0.len() as int) =~= b0);
    assert(b1[b0.len() as int] == hb[0]);
    emit::lemma_chain_block(b0, out0, b1, out1, last);
}

/// Describes how block output is provided.
pub enum BlockOutput<'a> {
    /// Output as runs of literals followed by matches.
    Sequences(&'a [Sequence]),
    /// Output as a minimum-cost path through the nodes of a block.
    Optimum {
        /// The nodes, one for each byte of the block.
        nodes: &'a [OptimumNode],
        /// The length of the block.
        block_length: usize,
    },
}

impl<'a> BlockOutput<'a> {
    /// The literals and matches of the block.
    pub open spec fn items(&self) -> Seq<(int, int)> {
        match self {
            BlockOutput::Sequences(seqs) => sequences::items_of(seqs@),
            BlockOutput::Optimum { nodes, block_length } => near_optimal::path_items(
                nodes@,
                0,
                *block_length as int,
            ),
        }
    }

    /// The output stands for the `n` bytes at `base` of the data.
    pub open spec fn wf(&self, h: Seq<u8>, base: int, n: int) -> bool {
        &&& items::parse_ok(h, base, self.items())
        &&& items::end_of(base, self.items()) == base + n
        &&& match self {
            BlockOutput::Sequences(seqs) => seqs_ok(seqs@),
            BlockOutput::Optimum { nodes, block_length } => {
                &&& *block_length == n
                &&& *block_length <= nodes@.len()
                &&& near_optimal::literals_ok(nodes@, h, base, n)
            },
        }
    }
}

/// The number of symbols up to the last one that has a codeword, but at least
/// `least`.
pub fn num_syms(lens: &[u8], least: usize) -> (n: usize)
    requires
        least <= lens@.len(),
    ensures
        least <= n <= lens@.len(),
        forall|s: int| n <= s < lens@.len() ==> #[trigger] lens@[s] == 0,
        n > least ==> lens@[n - 1] != 0,
{
    let mut n: usize = lens.len();
    while n > least && lens[n - 1] == 0
        invariant
            least <= n <= lens@.len(),
            forall|s: int| n <= s < lens@.len() ==> #[trigger] lens@[s] == 0,
        decreases n,
    {
        n = n - 1;
    }
    n
}

/// The first `nl` lengths of one code, followed by the first `no` of another.
pub fn combine_lens(ll: &[u8], nl: usize, ol: &[u8], no: usize) -> (r: Vec<u8>)
    requires
        nl <= ll@.len() <= 288,
        no <= ol@.len() <= 32,
    ensures
        r@ == ll@.take(nl as int) + ol@.take(no as int),
{
    let mut r: Vec<u8> = Vec::new();
    let mut k: usize = 0;
    while k < nl
        invariant
            k <= nl <= ll@.len(),
            r@ == ll@.take(k as int),
        decreases nl - k,
    {
        r.push(ll[k]);
        k = k + 1;
        assert(r@ =~= ll@.take(k as int));
    }
    let ghost a = r@;
    k = 0;
    while k < no
        invariant
            k <= no <= ol@.len(),
            r@ == a + ol@.take(k as int),
        decreases no - k,
    {
        r.push(ol[k]);
        k = k + 1;
        assert(r@ =~= a + ol@.take(k as int));
    }
    r
}

/// The number of bits that storing a block uncompressed takes.
fn uncompressed_cost(bitcount: u32, block_length: usize) -> (r: u64)
    requires
        bitcount <= 7,
        block_length < 0x40_0000,
    ensures
        forall|p: int|
            #![trigger stored::stored_end(p, block_length as int)]
            0 <= p && p % 8 == bitcount && block_length > 0 ==> r == stored::stored_end(
                p,
                block_length as int,
            ) - p,
        r >= 35,
        r < 0x400_0000,
{
    let align: u64 = if bitcount <= 5 {
        (5 - bitcount) as u64
    } else {
        (13 - bitcount) as u64
    };
    let full: u64 = if block_length == 0 {
        0
    } else {
        ((block_length - 1) / 65535) as u64
    };
    let r: u64 = 3 + align + 32 + 40 * full + 8 * block_length as u64;
    proof {
        assert forall|p: int|
            #![trigger stored::stored_end(p, block_length as int)]
            0 <= p && p % 8 == bitcount && block_length > 0 implies r == stored::stored_end(
            p,
            block_length as int,
        ) - p by {
            stored::lemma_stored_cost(p, block_length as int);
        }
    }
    r
}

/// The room that a block of `n` bytes takes at most, in bits, counted from a byte
/// boundary.
pub open spec fn block_room(n: int) -> int {
    40 * stored::stored_blocks(n) + 8 * n
}

/// What flushing the block of `n` bytes at `base` with `its` does to the output:
/// unless there is too little space, blocks are written that decode to those
/// bytes, and takes no more bits than storing the bytes or coding them with the
/// static codes would take.
pub open spec fn flushed_block(
    old: OutputBitstream<'_>,
    new: OutputBitstream<'_>,
    h: Seq<u8>,
    base: int,
    n: int,
    its: Seq<(int, int)>,
    last: bool,
) -> bool {
    let p = old.bits().len() as int;
    let q = new.bits().len() as int;
    &&& new.flushed()
    &&& new.buf@.len() == old.buf@.len()
    &&& old.overflow ==> new.overflow
    &&& !new.overflow ==> {
        &&& emit::extends(old.bits(), h.take(base), new.bits(), h.take(base + n), last)
        &&& n > 0 ==> q <= stored::stored_end(p, n)
        &&& q <= p + 10 + items::cost(
            h,
            base,
            its,
            stream::static_litlen_lens(),
            stream::static_offset_lens(),
        )
        &&& stream::align8(q) <= stream::align8(p) + block_room(n)
    }
    &&& !old.overflow && stream::align8(p) + block_room(n) <= 8 * old.buf@.len() ==> !new.overflow
    &&& new.overflow ==> {
        &&& new.pos == old.pos
        &&& new.bitbuf == old.bitbuf
        &&& new.bitcount == old.bitcount
        &&& new.buf@ == old.buf@
    }
}

/// What flushing a block asks for: the counters and the codes fit the block.
pub open spec fn can_flush(
    os: OutputBitstream<'_>,
    h: Seq<u8>,
    base: int,
    n: int,
    output: BlockOutput<'_>,
    freqs: DeflateFreqs,
    codes: DeflateCodes,
    static_codes: DeflateCodes,
) -> bool {
    &&& os.flushed()
    &&& 0 <= base
    &&& base + n <= h.len()
    &&& n < 0x40_0000
    &&& output.wf(h, base, n)
    &&& freqs.counts(h, base, output.items(), 1)
    &&& codes.wf()
    &&& forall|s: int|
        0 <= s < 288 && freqs.litlen@[s] > 0 ==> #[trigger] codes.lens_litlen@[s] > 0
    &&& forall|s: int|
        0 <= s < 32 && freqs.offset@[s] > 0 ==> #[trigger] codes.lens_offset@[s] > 0
    &&& static_codes.is_static()
}

/// Write the literals and matches of a block and the end-of-block symbol.
fn write_body(
    os: &mut OutputBitstream<'_>,
    codes: &DeflateCodes,
    input: &[u8],
    base: usize,
    block_length: usize,
    output: &BlockOutput<'_>,
    ll: Ghost<Seq<u8>>,
    ol: Ghost<Seq<u8>>,
)
    requires
        old(os).flushed(),
        writes_with(*codes, ll@, ol@),
        base + block_length <= input@.len(),
        output.wf(input@, base as int, block_length as int),
        emit::covers(input@, base as int, output.items(), ll@, ol@),
        codes::used(ll@, 256),
    ensures
        writer::wrote(
            *old(os),
            *final(os),
            emit::parse_bits(input@, base as int, output.items(), ll@, ol@) + emit::code_bits(
                ll@,
                256,
            ),
        ),
        final(final(os).buf)@ == final(old(os).buf)@,
{
    let ghost o0 = *os;
    match output {
        BlockOutput::Sequences(seqs) => {
            write_sequences(os, codes, input, base, seqs, ll, ol);
        },
        BlockOutput::Optimum { nodes, block_length: bl } => {
            write_optimum(os, codes, input, base, nodes, *bl, ll, ol);
        },
    }
    let ghost o1 = *os;
    put_symbol(os, &codes.codewords_litlen, &codes.lens_litlen, 256, ll);
    proof {
        writer::lemma_wrote_trans(
            o0,
            o1,
            *os,
            emit::parse_bits(input@, base as int, output.items(), ll@, ol@),
            emit::code_bits(ll@, 256),
        );
    }
}

/// The code lengths of a block without the unused symbols at the end write the
/// same codewords, have a codeword for every symbol of the block, and give it the
/// same cost.
pub proof fn lemma_trimmed_codes(
    codes: DeflateCodes,
    freqs: DeflateFreqs,
    h: Seq<u8>,
    base: int,
    its: Seq<(int, int)>,
    nl: int,
    no: int,
)
    requires
        codes.wf(),
        0 <= base <= h.len(),
        items::parse_ok(h, base, its),
        freqs.counts(h, base, its, 1),
        forall|s: int|
            0 <= s < 288 && freqs.litlen@[s] > 0 ==> #[trigger] codes.lens_litlen@[s] > 0,
        forall|s: int|
            0 <= s < 32 && freqs.offset@[s] > 0 ==> #[trigger] codes.lens_offset@[s] > 0,
        257 <= nl <= 288,
        1 <= no <= 32,
        forall|s: int| nl <= s < 288 ==> #[trigger] codes.lens_litlen@[s] == 0,
        forall|s: int| no <= s < 32 ==> #[trigger] codes.lens_offset@[s] == 0,
    ensures
        ({
            let ll = codes.lens_litlen@.take(nl);
            let ol = codes.lens_offset@.take(no);
            &&& writes_with(codes, ll, ol)
            &&& emit::covers(h, base, its, ll, ol)
            &&& codes::used(ll, 256)
            &&& items::cost(h, base, its, ll, ol) == items::cost(
                h,
                base,
                its,
                codes.lens_litlen@,
                codes.lens_offset@,
            )
        }),
{
    let fl = codes.lens_litlen@;
    let fo = codes.lens_offset@;
    let ll = fl.take(nl);
    let ol = fo.take(no);
    codes::lemma_trim(fl, nl as nat);
    codes::lemma_trim(fo, no as nat);
    items::lemma_counts_range(h, base, its);
    items::lemma_parse_len(h, base, its);
    assert forall|s: int| #[trigger] codes::used(ll, s) implies codes.lens_litlen@[s] == ll[s]
        && codes.codewords_litlen@[s] == bits::rev(codes::codeword(ll, s), ll[s] as nat) by {
        assert(codes::used(fl, s));
        assert(codes::codeword(fl.take(nl), s) == codes::codeword(fl, s));
    }
    assert forall|s: int| #[trigger] codes::used(ol, s) implies codes.lens_offset@[s] == ol[s]
        && codes.codewords_offset@[s] == bits::rev(codes::codeword(ol, s), ol[s] as nat) by {
        assert(codes::used(fo, s));
        assert(codes::codeword(fo.take(no), s) == codes::codeword(fo, s));
    }
    assert forall|s: int| #[trigger] items::litlen_count(h, base, its, s) > 0 implies codes::used(
        ll,
        s,
    ) by {
        assert(freqs.litlen@[s] > 0);
        assert(fl[s] > 0);
        assert(codes::used(fl, s));
    }
    assert forall|s: int| #[trigger] items::offset_count(its, s) > 0 implies codes::used(ol, s) by {
        assert(freqs.offset@[s] > 0);
        assert(fo[s] > 0);
        assert(codes::used(fo, s));
    }
    assert(freqs.litlen@[256] > 0);
    assert(fl[256] > 0);
    emit::lemma_cost_same(h, base, its, ll, ol, fl, fo);
}

/// Flush a complete DEFLATE block.
///
/// Chooses the cheapest block type (uncompressed, static Huffman, dynamic
/// Huffman) and writes it to the output bitstream.
pub fn flush_block(
    os: &mut OutputBitstream<'_>,
    input: &[u8],
    base: usize,
    block_length: usize,
    output: BlockOutput<'_>,
    freqs: &DeflateFreqs,
    codes: &DeflateCodes,
    static_codes: &DeflateCodes,
    is_final_block: bool,
)
    requires
        can_flush(
            *old(os),
            input@,
            base as int,
            block_length as int,
            output,
            *freqs,
            *codes,
            *static_codes,
        ),
    ensures
        flushed_block(
            *old(os),
            *final(os),
            input@,
            base as int,
            block_length as int,
            output.items(),
            is_final_block,
        ),
        final(final(os).buf)@ == final(old(os).buf)@,
        !final(os).overflow ==> written_best(
            old(os).bits(),
            final(os).bits(),
            input@,
            base as int,
            block_length as int,
            output.items(),
            is_final_block,
            *codes,
            true,
        ),
        final(os).overflow && !old(os).overflow ==> misfits_with(
            old(os).bits(),
            old(os).buf@.len() as int,
            input@,
            base as int,
            block_length as int,
            output.items(),
            is_final_block,
            *codes,
            true,
        ),
{
    flush_block_inner(
        os,
        input,
        base,
        block_length,
        output,
        freqs,
        codes,
        static_codes,
        is_final_block,
        false,
    );
}

/// Flush a complete DEFLATE block, searching all valid ways to pack the code
/// lengths for the smallest header.
pub fn flush_block_best(
    os: &mut OutputBitstream<'_>,
    input: &[u8],
    base: usize,
    block_length: usize,
    output: BlockOutput<'_>,
    freqs: &DeflateFreqs,
    codes: &DeflateCodes,
    static_codes: &DeflateCodes,
    is_final_block: bool,
)
    requires
        can_flush(
            *old(os),
            input@,
            base as int,
            block_length as int,
            output,
            *freqs,
            *codes,
            *static_codes,
        ),
    ensures
        flushed_block(
            *old(os),
            *final(os),
            input@,
            base as int,
            block_length as int,
            output.items(),
            is_final_block,
        ),
        final(final(os).buf)@ == final(old(os).buf)@,
        !final(os).overflow ==> written_best(
            old(os).bits(),
            final(os).bits(),
            input@,
            base as int,
            block_length as int,
            output.items(),
            is_final_block,
            *codes,
            false,
        ),
        final(os).overflow && !old(os).overflow ==> misfits_with(
            old(os).bits(),
            old(os).buf@.len() as int,
            input@,
            base as int,
            block_length as int,
            output.items(),
            is_final_block,
            *codes,
            false,
        ),
{
    flush_block_inner(
        os,
        input,
        base,
        block_length,
        output,
        freqs,
        codes,
        static_codes,
        is_final_block,
        true,
    );
}

/// The bits of a block with the static codes.
pub open spec fn static_bits(h: Seq<u8>, base: int, its: Seq<(int, int)>, last: bool) -> Seq<bool> {
    let ll = stream::static_litlen_lens();
    let ol = stream::static_offset_lens();
    precode::type_bits(last, 1) + (emit::parse_bits(h, base, its, ll, ol) + emit::code_bits(ll, 256))
}

/// The bits of a block with codes of its own, the lengths of which are packed as `pk`
/// says.
pub open spec fn dynamic_bits(
    h: Seq<u8>,
    base: int,
    its: Seq<(int, int)>,
    last: bool,
    ll: Seq<u8>,
    ol: Seq<u8>,
    pk: BestPrecodeResult,
) -> Seq<bool> {
    precode::header_bits(
        last,
        ll.len() as int,
        ol.len() as int,
        pk.num_explicit_lens as int,
        pk.precode_items@,
        pk.precode_lens@,
    ) + (emit::parse_bits(h, base, its, ll, ol) + emit::code_bits(ll, 256))
}

/// The block behind the bits `b0` is written in the cheapest of the three ways: stored,
/// with the static codes, or with the codes whose first lengths are `ll` and `ol`, packed
/// as `pk` says. Where two ways cost the same, the one that comes first here is taken.
pub open spec fn cheapest_way(
    b0: Seq<bool>,
    b1: Seq<bool>,
    h: Seq<u8>,
    base: int,
    n: int,
    its: Seq<(int, int)>,
    last: bool,
    ll: Seq<u8>,
    ol: Seq<u8>,
    pk: BestPrecodeResult,
) -> bool {
    let p = b0.len() as int;
    let stored_cost = stored::stored_end(p, n) - p;
    let static_cost = 10 + items::cost(
        h,
        base,
        its,
        stream::static_litlen_lens(),
        stream::static_offset_lens(),
    );
    let dynamic_cost = 3 + pk.cost + items::cost(h, base, its, ll, ol) + ll[256];
    if n > 0 && stored_cost <= static_cost && stored_cost <= dynamic_cost {
        b1 == stored::with_stored(b0, h.subrange(base, base + n), last)
    } else if static_cost <= dynamic_cost {
        b1 == b0 + static_bits(h, base, its, last)
    } else {
        b1 == b0 + dynamic_bits(h, base, its, last, ll, ol, pk)
    }
}

/// The block is written in the cheapest of three ways. The lengths of the codes up to the
/// last that are used are packed with all codes for runs if `plain` is set, else in the way
/// that takes the fewest bits.
#[verifier::opaque]
pub open spec fn written_best(
    b0: Seq<bool>,
    b1: Seq<bool>,
    h: Seq<u8>,
    base: int,
    n: int,
    its: Seq<(int, int)>,
    last: bool,
    codes: DeflateCodes,
    plain: bool,
) -> bool {
    exists|pk: BestPrecodeResult, nl: int, no: int|
        #![trigger pk.wf(codes.lens_litlen@.take(nl) + codes.lens_offset@.take(no))]
        {
            let ll = codes.lens_litlen@.take(nl);
            let ol = codes.lens_offset@.take(no);
            &&& 257 <= nl <= 288
            &&& nl > 257 ==> codes.lens_litlen@[nl - 1] > 0
            &&& forall|s: int| nl <= s < 288 ==> #[trigger] codes.lens_litlen@[s] == 0
            &&& 1 <= no <= 32
            &&& no > 1 ==> codes.lens_offset@[no - 1] > 0
            &&& forall|s: int| no <= s < 32 ==> #[trigger] codes.lens_offset@[s] == 0
            &&& pk.wf(ll + ol)
            &&& plain ==> pk.packs(ll + ol, PrecodeFlags::all_codes())
            &&& !plain ==> pk.packs(ll + ol, cost_model::best_flags(ll + ol, 32)) && pk.lowest(
                ll + ol,
            )
            &&& cheapest_way(b0, b1, h, base, n, its, last, ll, ol, pk)
        }
}

/// The block of the `n` bytes at `base`, behind the bits `b0`, is the parse `its` of them,
/// written in the cheapest of three ways: stored, with the static codes, or with Huffman
/// codes for its symbols, the lengths of which are packed as `plain` says.
#[verifier::opaque]
pub open spec fn coded_with(
    b0: Seq<bool>,
    b1: Seq<bool>,
    h: Seq<u8>,
    base: int,
    n: int,
    its: Seq<(int, int)>,
    last: bool,
    plain: bool,
) -> bool {
    exists|freqs: DeflateFreqs, codes: DeflateCodes|
        {
            &&& items::parse_ok(h, base, its)
            &&& items::end_of(base, its) == base + n
            &&& #[trigger] freqs.counts(h, base, its, 1)
            &&& built(freqs, codes)
            &&& #[trigger] written_best(b0, b1, h, base, n, its, last, codes, plain)
        }
}

/// The bits take more than `room` bytes.
pub open spec fn too_long(b: Seq<bool>, room: int) -> bool {
    stream::align8(b.len() as int) > 8 * room
}

/// With the block that is the parse `its` of the `n` bytes at `base`, written with these
/// codes, the bits take more than `room` bytes.
pub open spec fn misfits_with(
    b0: Seq<bool>,
    room: int,
    h: Seq<u8>,
    base: int,
    n: int,
    its: Seq<(int, int)>,
    last: bool,
    codes: DeflateCodes,
    plain: bool,
) -> bool {
    exists|b1: Seq<bool>|
        #[trigger] written_best(b0, b1, h, base, n, its, last, codes, plain) && too_long(b1, room)
}

/// With the block that is the parse `its` of the `n` bytes at `base`, the bits take more
/// than `room` bytes.
#[verifier::opaque]
pub open spec fn misfits(
    b0: Seq<bool>,
    room: int,
    h: Seq<u8>,
    base: int,
    n: int,
    its: Seq<(int, int)>,
    last: bool,
    plain: bool,
) -> bool {
    exists|b1: Seq<bool>|
        #[trigger] coded_with(b0, b1, h, base, n, its, last, plain) && too_long(b1, room)
}

/// The block of the `n` bytes at `base`, behind the bits `b0`, is the parse `its` of them,
/// written in the cheapest of three ways: stored, with the static codes, or with Huffman
/// codes for its symbols.
pub open spec fn coded_as(
    b0: Seq<bool>,
    b1: Seq<bool>,
    h: Seq<u8>,
    base: int,
    n: int,
    its: Seq<(int, int)>,
    last: bool,
) -> bool {
    coded_with(b0, b1, h, base, n, its, last, true)
}

/// The block of the `n` bytes at `base`, behind the bits `b0`, is a parse of them, written
/// in the cheapest of three ways: stored, with the static codes, or with Huffman codes for
/// its symbols.
pub open spec fn coded_block(
    b0: Seq<bool>,
    b1: Seq<bool>,
    h: Seq<u8>,
    base: int,
    n: int,
    last: bool,
) -> bool {
    exists|its: Seq<(int, int)>| #[trigger] coded_as(b0, b1, h, base, n, its, last)
}

/// A block with the codes for its symbols that does not fit.
pub proof fn lemma_misfits(
    b0: Seq<bool>,
    room: int,
    h: Seq<u8>,
    base: int,
    n: int,
    its: Seq<(int, int)>,
    last: bool,
    freqs: DeflateFreqs,
    codes: DeflateCodes,
    plain: bool,
)
    requires
        items::parse_ok(h, base, its),
        items::end_of(base, its) == base + n,
        freqs.counts(h, base, its, 1),
        built(freqs, codes),
        misfits_with(b0, room, h, base, n, its, last, codes, plain),
    ensures
        misfits(b0, room, h, base, n, its, last, plain),
{
    reveal(misfits);
    let b1 = choose|b1: Seq<bool>|
        #[trigger] written_best(b0, b1, h, base, n, its, last, codes, plain) && too_long(b1, room);
    lemma_coded_block(b0, b1, h, base, n, its, last, freqs, codes, plain);
}

pub proof fn lemma_coded_block(
    b0: Seq<bool>,
    b1: Seq<bool>,
    h: Seq<u8>,
    base: int,
    n: int,
    its: Seq<(int, int)>,
    last: bool,
    freqs: DeflateFreqs,
    codes: DeflateCodes,
    plain: bool,
)
    requires
        items::parse_ok(h, base, its),
        items::end_of(base, its) == base + n,
        freqs.counts(h, base, its, 1),
        built(freqs, codes),
        written_best(b0, b1, h, base, n, its, last, codes, plain),
    ensures
        coded_with(b0, b1, h, base, n, its, last, plain),
{
    reveal(coded_with);
}

/// Write a block with the static codes.
fn put_static_block(
    os: &mut OutputBitstream<'_>,
    input: &[u8],
    base: usize,
    block_length: usize,
    output: &BlockOutput<'_>,
    static_codes: &DeflateCodes,
    is_final_block: bool,
)
    requires
        old(os).flushed(),
        !old(os).overflow,
        base + block_length <= input@.len(),
        output.wf(input@, base as int, block_length as int),
        static_codes.is_static(),
    ensures
        final(os).flushed(),
        final(os).buf@.len() == old(os).buf@.len(),
        final(final(os).buf)@ == final(old(os).buf)@,
        ({
            let q = old(os).bits().len() + 10 + items::cost(
                input@,
                base as int,
                output.items(),
                stream::static_litlen_lens(),
                stream::static_offset_lens(),
            );
            &&& !final(os).overflow ==> final(os).bits().len() == q && emit::extends(
                old(os).bits(),
                input@.take(base as int),
                final(os).bits(),
                input@.take(base + block_length),
                is_final_block,
            )
            &&& q <= 8 * old(os).buf@.len() ==> !final(os).overflow
        }),
        !final(os).overflow ==> final(os).bits() == old(os).bits() + static_bits(
            input@,
            base as int,
            output.items(),
            is_final_block,
        ),
{
    let ghost o0 = *os;
    let ghost h = input@;
    let ghost b = base as int;
    let ghost its = output.items();
    let ghost sl = stream::static_litlen_lens();
    let ghost so = stream::static_offset_lens();
    proof {
        lemma_static_block(o0.bits(), h, b, its, is_final_block);
    }
    put_type(os, is_final_block, 1);
    let ghost o1 = *os;
    write_body(os, static_codes, input, base, block_length, output, Ghost(sl), Ghost(so));
    proof {
        writer::lemma_wrote_trans(
            o0,
            o1,
            *os,
            precode::type_bits(is_final_block, 1),
            emit::parse_bits(h, b, its, sl, so) + emit::code_bits(sl, 256),
        );
    }
}

/// Write a block with codes of its own.
fn put_dynamic_block(
    os: &mut OutputBitstream<'_>,
    input: &[u8],
    base: usize,
    block_length: usize,
    output: &BlockOutput<'_>,
    codes: &DeflateCodes,
    pk: &BestPrecodeResult,
    nl: usize,
    no: usize,
    is_final_block: bool,
)
    requires
        old(os).flushed(),
        !old(os).overflow,
        base + block_length <= input@.len(),
        output.wf(input@, base as int, block_length as int),
        257 <= nl <= 288,
        1 <= no <= 32,
        ({
            let ll = codes.lens_litlen@.take(nl as int);
            let ol = codes.lens_offset@.take(no as int);
            &&& writes_with(*codes, ll, ol)
            &&& emit::covers(input@, base as int, output.items(), ll, ol)
            &&& codes::used(ll, 256)
            &&& pk.wf(ll + ol)
        }),
    ensures
        final(os).flushed(),
        final(os).buf@.len() == old(os).buf@.len(),
        final(final(os).buf)@ == final(old(os).buf)@,
        ({
            let ll = codes.lens_litlen@.take(nl as int);
            let ol = codes.lens_offset@.take(no as int);
            let q = old(os).bits().len() + 3 + pk.cost + items::cost(
                input@,
                base as int,
                output.items(),
                ll,
                ol,
            ) + ll[256];
            &&& !final(os).overflow ==> final(os).bits().len() == q && emit::extends(
                old(os).bits(),
                input@.take(base as int),
                final(os).bits(),
                input@.take(base + block_length),
                is_final_block,
            )
            &&& q <= 8 * old(os).buf@.len() ==> !final(os).overflow
        }),
        !final(os).overflow ==> final(os).bits() == old(os).bits() + dynamic_bits(
            input@,
            base as int,
            output.items(),
            is_final_block,
            codes.lens_litlen@.take(nl as int),
            codes.lens_offset@.take(no as int),
            *pk,
        ),
{
    let ghost o0 = *os;
    let ghost h = input@;
    let ghost b = base as int;
    let ghost its = output.items();
    let ghost ll = codes.lens_litlen@.take(nl as int);
    let ghost ol = codes.lens_offset@.take(no as int);
    proof {
        lemma_dynamic_block(o0.bits(), h, b, its, is_final_block, ll, ol, *pk);
    }
    put_header(os, is_final_block, nl, no, pk, Ghost(ll + ol));
    let ghost o1 = *os;
    write_body(os, codes, input, base, block_length, output, Ghost(ll), Ghost(ol));
    proof {
        writer::lemma_wrote_trans(
            o0,
            o1,
            *os,
            precode::header_bits(
                is_final_block,
                nl as int,
                no as int,
                pk.num_explicit_lens as int,
                pk.precode_items@,
                pk.precode_lens@,
            ),
            emit::parse_bits(h, b, its, ll, ol) + emit::code_bits(ll, 256),
        );
    }
}

/// The counters give the costs of a parse.
pub proof fn lemma_symbol_cost(
    freqs: DeflateFreqs,
    h: Seq<u8>,
    base: int,
    its: Seq<(int, int)>,
    eob: int,
    ll: Seq<u8>,
    ol: Seq<u8>,
)
    requires
        freqs.counts(h, base, its, eob),
        eob == 0 || eob == 1,
        items::parse_ok(h, base, its),
        ll.len() == 288,
    ensures
        litlen_freq_sum(freqs.litlen@, ll, 288) + offset_freq_sum(freqs.offset@, ol, 32)
            == items::cost(h, base, its, ll, ol) + if eob == 1 {
            ll[256] as int
        } else {
            0
        },
{
    lemma_litlen_freq_sum(freqs, h, base, its, eob, ll, 288);
    lemma_offset_freq_sum(freqs, h, base, its, eob, ol, 32);
    items::lemma_cost_is_sum(h, base, its, ll, ol);
}

/// Whether the cheapest way to write a block fits, and how much room it takes.
#[verifier::spinoff_prover]
#[verifier::rlimit(40)]
proof fn lemma_room(p: int, pos: int, bitcount: int, best: int, n: int, size: int)
    requires
        0 <= pos <= size,
        0 <= bitcount <= 7,
        p == 8 * pos + bitcount,
        0 <= best,
        0 <= n,
        n == 0 ==> best <= 10,
        n > 0 ==> best <= stored::stored_end(p, n) - p,
    ensures
        (bitcount + best + 7) / 8 > size - pos ==> stream::align8(p) + block_room(n) > 8 * size,
        (bitcount + best + 7) / 8 <= size - pos ==> p + best <= 8 * size,
        (bitcount + best + 7) / 8 <= size - pos && n > 0 && best == stored::stored_end(p, n) - p
            ==> stored::stored_end(p, n) <= 8 * size,
        stream::align8(p + best) <= stream::align8(p) + block_room(n),
        n > 0 ==> stream::align8(stored::stored_end(p, n)) <= stream::align8(p) + block_room(n),
{
    if n > 0 {
        stored::lemma_stored_end(p, n);
        let e = stored::stored_end(p, n);
        assert(e % 8 == 0);
        assert(stream::align8(p + best) <= e);
    }
    assert(stream::align8(p) == 8 * pos + if bitcount == 0 {
        0int
    } else {
        8
    });
    assert(stream::align8(p + best) == 8 * (pos + (bitcount + best + 7) / 8));
}

/// Flush a block, with or without searching for the smallest header.
#[verifier::spinoff_prover]
#[verifier::rlimit(60)]
fn flush_block_inner(
    os: &mut OutputBitstream<'_>,
    input: &[u8],
    base: usize,
    block_length: usize,
    output: BlockOutput<'_>,
    freqs: &DeflateFreqs,
    codes: &DeflateCodes,
    static_codes: &DeflateCodes,
    is_final_block: bool,
    use_best_precode: bool,
)
    requires
        can_flush(
            *old(os),
            input@,
            base as int,
            block_length as int,
            output,
            *freqs,
            *codes,
            *static_codes,
        ),
    ensures
        flushed_block(
            *old(os),
            *final(os),
            input@,
            base as int,
            block_length as int,
            output.items(),
            is_final_block,
        ),
        final(final(os).buf)@ == final(old(os).buf)@,
        !final(os).overflow ==> written_best(
            old(os).bits(),
            final(os).bits(),
            input@,
            base as int,
            block_length as int,
            output.items(),
            is_final_block,
            *codes,
            !use_best_precode,
        ),
        final(os).overflow && !old(os).overflow ==> misfits_with(
            old(os).bits(),
            old(os).buf@.len() as int,
            input@,
            base as int,
            block_length as int,
            output.items(),
            is_final_block,
            *codes,
            !use_best_precode,
        ),
{
    if os.overflow {
        return;
    }
    let ghost b0 = os.bits();
    let ghost h = input@;
    let ghost b = base as int;
    let ghost n = block_length as int;
    let ghost its = output.items();
    let ghost p = os.bits().len() as int;

    // Pack the code lengths.
    let nl: usize = num_syms(&codes.lens_litlen, 257);
    let no: usize = num_syms(&codes.lens_offset, 1);
    let lens: Vec<u8> = combine_lens(&codes.lens_litlen, nl, &codes.lens_offset, no);
    proof {
        lemma_trimmed_codes(*codes, *freqs, h, b, its, nl as int, no as int);
    }
    let pk: BestPrecodeResult = if use_best_precode {
        compute_precode_items_best(&lens)
    } else {
        pack_lens(&lens, PrecodeFlags::standard())
    };

    // Compute block costs.
    let bitcount: u32 = os.bitcount;
    let dynamic_cost: u64 = 3 + pk.cost as u64 + symbol_cost(freqs, codes);
    let static_cost: u64 = 3 + symbol_cost(freqs, static_codes);
    let stored_cost: u64 = uncompressed_cost(bitcount, block_length);
    let ghost sl = stream::static_litlen_lens();
    let ghost so = stream::static_offset_lens();
    proof {
        lemma_symbol_cost(*freqs, h, b, its, 1, codes.lens_litlen@, codes.lens_offset@);
        lemma_symbol_cost(*freqs, h, b, its, 1, sl, so);
        if n == 0 {
            items::lemma_parse_len(h, b, its);
            assert(its.len() == 0);
            assert(static_cost == 10);
        } else {
            assert(stored_cost == stored::stored_end(p, n) - p);
        }
    }

    // Choose the cheapest block type.
    let mut best_cost: u64 = dynamic_cost;
    if static_cost < best_cost {
        best_cost = static_cost;
    }
    if stored_cost < best_cost {
        best_cost = stored_cost;
    }
    let bytes_needed: u64 = (bitcount as u64 + best_cost + 7) / 8;
    proof {
        lemma_room(
            p,
            os.pos as int,
            bitcount as int,
            best_cost as int,
            n,
            os.buf@.len() as int,
        );
    }
    if bytes_needed > os.remaining() as u64 {
        os.overflow = true;
        proof {
            let ll = codes.lens_litlen@.take(nl as int);
            let ol = codes.lens_offset@.take(no as int);
            let data = h.subrange(b, b + n);
            let b1 = if best_cost == stored_cost {
                stored::with_stored(b0, data, is_final_block)
            } else if best_cost == static_cost {
                b0 + static_bits(h, b, its, is_final_block)
            } else {
                b0 + dynamic_bits(h, b, its, is_final_block, ll, ol, pk)
            };
            stored::lemma_with_stored_len(b0, data, is_final_block);
            lemma_static_block(b0, h, b, its, is_final_block);
            lemma_dynamic_block(b0, h, b, its, is_final_block, ll, ol, pk);
            assert(b1.len() == p + best_cost);
            assert(pk.wf(ll + ol));
            assert(cheapest_way(b0, b1, h, b, n, its, is_final_block, ll, ol, pk));
            assert(too_long(b1, os.buf@.len() as int));
            reveal(written_best);
            assert(written_best(
                b0,
                b1,
                h,
                b,
                n,
                its,
                is_final_block,
                *codes,
                !use_best_precode,
            ));
        }
        return;
    }
    if best_cost == stored_cost {
        assert(n > 0);
        write_uncompressed_blocks(os, input, base, block_length, is_final_block);
    } else if best_cost == static_cost {
        put_static_block(os, input, base, block_length, &output, static_codes, is_final_block);
    } else {
        put_dynamic_block(
            os,
            input,
            base,
            block_length,
            &output,
            codes,
            &pk,
            nl,
            no,
            is_final_block,
        );
    }
    proof {
        if !os.overflow {
            let ll = codes.lens_litlen@.take(nl as int);
            let ol = codes.lens_offset@.take(no as int);
            assert(pk.wf(ll + ol));
            assert(cheapest_way(b0, os.bits(), h, b, n, its, is_final_block, ll, ol, pk));
            reveal(written_best);
        }
    }
}

/// The sequences are a parse of the data from `base` to `cur`, the last of them
/// is open for more literals, and the counters fit.
pub open spec fn parsed(
    h: Seq<u8>,
    base: int,
    cur: int,
    seqs: Seq<Sequence>,
    freqs: DeflateFreqs,
) -> bool {
    let its = sequences::items_of(seqs);
    &&& seqs.len() > 0
    &&& seqs.last().len() == 0
    &&& seqs_ok(seqs)
    &&& items::parse_ok(h, base, its)
    &&& items::end_of(base, its) == cur
    &&& freqs.counts(h, base, its, 0)
}

/// No symbol occurs more often than there are bytes.
pub proof fn lemma_parsed_bound(
    h: Seq<u8>,
    base: int,
    cur: int,
    seqs: Seq<Sequence>,
    freqs: DeflateFreqs,
)
    requires
        parsed(h, base, cur, seqs, freqs),
        0 <= base <= h.len(),
    ensures
        base <= cur <= h.len(),
        forall|s: int| 0 <= s < 288 ==> #[trigger] freqs.litlen@[s] <= cur - base,
        forall|s: int| 0 <= s < 32 ==> #[trigger] freqs.offset@[s] <= cur - base,
{
    let its = sequences::items_of(seqs);
    items::lemma_parse_len(h, base, its);
    assert forall|s: int| 0 <= s < 288 implies #[trigger] freqs.litlen@[s] <= cur - base by {
        assert(items::litlen_count(h, base, its, s) <= its.len());
    }
    assert forall|s: int| 0 <= s < 32 implies #[trigger] freqs.offset@[s] <= cur - base by {
        assert(items::offset_count(its, s) <= its.len());
    }
}

/// Start a block: no literals, no matches, and all counters zero.
pub fn begin_block(
    freqs: &mut DeflateFreqs,
    seqs: &mut Vec<Sequence>,
    h: Ghost<Seq<u8>>,
    base: Ghost<int>,
)
    ensures
        parsed(h@, base@, base@, final(seqs)@, *final(freqs)),
        final(seqs)@.len() == 1,
        sequences::items_of(final(seqs)@) == Seq::<(int, int)>::empty(),
{
    freqs.reset();
    seqs.clear();
    seqs.push(Sequence { litrunlen_and_length: 0, offset: 0, offset_slot: 0 });
    proof {
        assert(seqs@.drop_last() =~= Seq::empty());
        assert(seqs@.last().items() =~= Seq::empty());
        assert(sequences::items_of(seqs@.drop_last()) =~= Seq::<(int, int)>::empty());
        assert(sequences::items_of(seqs@) =~= Seq::<(int, int)>::empty());
    }
}

/// Record a literal into the frequency table and the current sequence.
pub fn choose_literal(
    freqs: &mut DeflateFreqs,
    literal: u8,
    seqs: &mut Vec<Sequence>,
    h: Ghost<Seq<u8>>,
    base: Ghost<int>,
    cur: Ghost<int>,
)
    requires
        parsed(h@, base@, cur@, old(seqs)@, *old(freqs)),
        0 <= base@ <= cur@ < h@.len(),
        cur@ - base@ < 0x40_0000,
        h@[cur@] == literal,
    ensures
        parsed(h@, base@, cur@ + 1, final(seqs)@, *final(freqs)),
        final(seqs)@.len() == old(seqs)@.len(),
        sequences::items_of(final(seqs)@) == sequences::items_of(old(seqs)@).push((1, 0)),
{
    let ghost s0 = seqs@;
    let ghost its = sequences::items_of(s0);
    proof {
        items::lemma_parse_len(h@, base@, its);
        assert(items::litlen_count(h@, base@, its, literal as int) <= its.len());
        assert(freqs.litlen@[literal as int] <= its.len());
        assert(s0.last().items().len() == s0.last().lits());
    }
    freqs.litlen[literal as usize] = freqs.litlen[literal as usize] + 1;
    let k: usize = seqs.len() - 1;
    let mut seq: Sequence = seqs[k];
    seq.litrunlen_and_length = seq.litrunlen_and_length + 1;
    seqs.set(k, seq);
    proof {
        let its1 = sequences::items_of(seqs@);
        assert(seqs@.drop_last() =~= s0.drop_last());
        assert(seqs@.last().items() =~= s0.last().items().push((1, 0)));
        assert(its1 =~= its.push((1, 0)));
        assert(its1.drop_last() =~= its);
        assert forall|s: int| 0 <= s < 288 implies #[trigger] freqs.litlen@[s] == items::litlen_count(
            h@,
            base@,
            its1,
            s,
        ) + if s == 256 {
            0int
        } else {
            0
        } by {
            assert(old(freqs).litlen@[s] == items::litlen_count(h@, base@, its, s));
        }
        assert forall|s: int| 0 <= s < 32 implies #[trigger] freqs.offset@[s] == items::offset_count(
            its1,
            s,
        ) by {
            assert(old(freqs).offset@[s] == items::offset_count(its, s));
        }
        assert forall|j: int| 0 <= j < seqs@.len() && (#[trigger] seqs@[j]).len() > 0 implies seqs@[j].offset_slot
            == items::offset_slot_of(seqs@[j].offset as int) && seqs@[j].offset > 0 by {
            assert(s0[j].len() > 0);
        }
    }
}

/// Record a match into the frequency table and start the next sequence.
pub fn choose_match(
    freqs: &mut DeflateFreqs,
    length: u32,
    offset: u32,
    seqs: &mut Vec<Sequence>,
    h: Ghost<Seq<u8>>,
    base: Ghost<int>,
    cur: Ghost<int>,
)
    requires
        parsed(h@, base@, cur@, old(seqs)@, *old(freqs)),
        0 <= base@ <= cur@ <= h@.len(),
        cur@ - base@ < 0x40_0000,
        offset > 0,
        items::item_ok(h@, cur@, (length as int, offset as int)),
    ensures
        parsed(h@, base@, cur@ + length, final(seqs)@, *final(freqs)),
        final(seqs)@.len() == old(seqs)@.len() + 1,
        sequences::items_of(final(seqs)@) == sequences::items_of(old(seqs)@).push(
            (length as int, offset as int),
        ),
{
    let ghost s0 = seqs@;
    let ghost its = sequences::items_of(s0);
    let length_slot: usize = get_length_slot(length) as usize;
    let offset_slot: usize = get_offset_slot(offset) as usize;
    let ghost ls = 257 + length_slot;
    proof {
        items::lemma_parse_len(h@, base@, its);
        assert(items::litlen_count(h@, base@, its, ls) <= its.len());
        assert(freqs.litlen@[ls] <= its.len());
        assert(items::offset_count(its, offset_slot as int) <= its.len());
        assert(freqs.offset@[offset_slot as int] <= its.len());
        assert(s0.last().items().len() == s0.last().lits());
    }
    freqs.litlen[257 + length_slot] = freqs.litlen[257 + length_slot] + 1;
    freqs.offset[offset_slot] = freqs.offset[offset_slot] + 1;
    let k: usize = seqs.len() - 1;
    let mut seq: Sequence = seqs[k];
    seq.litrunlen_and_length = seq.litrunlen_and_length + length * 0x80_0000;
    seq.offset = offset as u16;
    seq.offset_slot = offset_slot as u16;
    seqs.set(k, seq);
    let ghost s1 = seqs@;
    seqs.push(Sequence { litrunlen_and_length: 0, offset: 0, offset_slot: 0 });
    proof {
        let it = (length as int, offset as int);
        let its1 = sequences::items_of(seqs@);
        assert(s1.drop_last() =~= s0.drop_last());
        assert(s1.last().lits() == s0.last().lits());
        assert(s1.last().len() == length);
        assert(s1.last().items() =~= s0.last().items().push(it));
        assert(sequences::items_of(s1) =~= its.push(it));
        assert(seqs@.drop_last() =~= s1);
        assert(seqs@.last().items() =~= Seq::<(int, int)>::empty());
        assert(its1 =~= its.push(it));
        assert(its1.drop_last() =~= its);
        assert forall|s: int| 0 <= s < 288 implies #[trigger] freqs.litlen@[s] == items::litlen_count(
            h@,
            base@,
            its1,
            s,
        ) + if s == 256 {
            0int
        } else {
            0
        } by {
            assert(old(freqs).litlen@[s] == items::litlen_count(h@, base@, its, s));
        }
        assert forall|s: int| 0 <= s < 32 implies #[trigger] freqs.offset@[s] == items::offset_count(
            its1,
            s,
        ) by {
            assert(old(freqs).offset@[s] == items::offset_count(its, s));
        }
        assert forall|j: int| 0 <= j < seqs@.len() && (#[trigger] seqs@[j]).len() > 0 implies seqs@[j].offset_slot
            == items::offset_slot_of(seqs@[j].offset as int) && seqs@[j].offset > 0 by {
            if j < k {
                assert(s0[j].len() > 0);
            }
        }
    }
}

/// Build codes and flush a finished block (adds end-of-block symbol first).
pub fn finish_block(
    os: &mut OutputBitstream<'_>,
    input: &[u8],
    base: usize,
    block_length: usize,
    seqs: &[Sequence],
    freqs: &mut DeflateFreqs,
    codes: &mut DeflateCodes,
    static_codes: &DeflateCodes,
    is_final_block: bool,
)
    requires
        old(os).flushed(),
        base + block_length <= input@.len(),
        block_length < 0x3f_ffff,
        parsed(input@, base as int, base + block_length, seqs@, *old(freqs)),
        static_codes.is_static(),
    ensures
        flushed_block(
            *old(os),
            *final(os),
            input@,
            base as int,
            block_length as int,
            sequences::items_of(seqs@),
            is_final_block,
        ),
        final(final(os).buf)@ == final(old(os).buf)@,
        final(codes).wf(),
        codes_for(
            input@,
            base as int,
            sequences::items_of(seqs@),
            final(codes).lens_litlen@,
            final(codes).lens_offset@,
        ),
        !final(os).overflow ==> coded_as(
            old(os).bits(),
            final(os).bits(),
            input@,
            base as int,
            block_length as int,
            sequences::items_of(seqs@),
            is_final_block,
        ),
        final(os).overflow && !old(os).overflow ==> misfits(
            old(os).bits(),
            old(os).buf@.len() as int,
            input@,
            base as int,
            block_length as int,
            sequences::items_of(seqs@),
            is_final_block,
            true,
        ),
{
    finish_block_inner(
        os,
        input,
        base,
        block_length,
        seqs,
        freqs,
        codes,
        static_codes,
        is_final_block,
        false,
    );
}

/// Like `finish_block`, with the cheapest way to write the code lengths.
pub fn finish_block_best(
    os: &mut OutputBitstream<'_>,
    input: &[u8],
    base: usize,
    block_length: usize,
    seqs: &[Sequence],
    freqs: &mut DeflateFreqs,
    codes: &mut DeflateCodes,
    static_codes: &DeflateCodes,
    is_final_block: bool,
)
    requires
        old(os).flushed(),
        base + block_length <= input@.len(),
        block_length < 0x3f_ffff,
        parsed(input@, base as int, base + block_length, seqs@, *old(freqs)),
        static_codes.is_static(),
    ensures
        flushed_block(
            *old(os),
            *final(os),
            input@,
            base as int,
            block_length as int,
            sequences::items_of(seqs@),
            is_final_block,
        ),
        final(final(os).buf)@ == final(old(os).buf)@,
        final(codes).wf(),
        !final(os).overflow ==> coded_with(
            old(os).bits(),
            final(os).bits(),
            input@,
            base as int,
            block_length as int,
            sequences::items_of(seqs@),
            is_final_block,
            false,
        ),
        final(os).overflow && !old(os).overflow ==> misfits(
            old(os).bits(),
            old(os).buf@.len() as int,
            input@,
            base as int,
            block_length as int,
            sequences::items_of(seqs@),
            is_final_block,
            false,
        ),
{
    finish_block_inner(
        os,
        input,
        base,
        block_length,
        seqs,
        freqs,
        codes,
        static_codes,
        is_final_block,
        true,
    );
}

/// Add the end-of-block symbol, build codes and flush the block.
fn finish_block_inner(
    os: &mut OutputBitstream<'_>,
    input: &[u8],
    base: usize,
    block_length: usize,
    seqs: &[Sequence],
    freqs: &mut DeflateFreqs,
    codes: &mut DeflateCodes,
    static_codes: &DeflateCodes,
    is_final_block: bool,
    best: bool,
)
    requires
        old(os).flushed(),
        base + block_length <= input@.len(),
        block_length < 0x3f_ffff,
        parsed(input@, base as int, base + block_length, seqs@, *old(freqs)),
        static_codes.is_static(),
    ensures
        flushed_block(
            *old(os),
            *final(os),
            input@,
            base as int,
            block_length as int,
            sequences::items_of(seqs@),
            is_final_block,
        ),
        final(final(os).buf)@ == final(old(os).buf)@,
        final(codes).wf(),
        codes_for(
            input@,
            base as int,
            sequences::items_of(seqs@),
            final(codes).lens_litlen@,
            final(codes).lens_offset@,
        ),
        !final(os).overflow ==> coded_with(
            old(os).bits(),
            final(os).bits(),
            input@,
            base as int,
            block_length as int,
            sequences::items_of(seqs@),
            is_final_block,
            !best,
        ),
        final(os).overflow && !old(os).overflow ==> misfits(
            old(os).bits(),
            old(os).buf@.len() as int,
            input@,
            base as int,
            block_length as int,
            sequences::items_of(seqs@),
            is_final_block,
            !best,
        ),
{
    let ghost b0 = os.bits();
    let ghost its = sequences::items_of(seqs@);
    proof {
        items::lemma_parse_len(input@, base as int, its);
        items::lemma_counts_range(input@, base as int, its);
        assert(items::litlen_count(input@, base as int, its, 256) == 0);
        assert forall|s: int| 0 <= s < 288 implies #[trigger] freqs.litlen@[s] <= block_length by {
            assert(items::litlen_count(input@, base as int, its, s) <= its.len());
        }
        assert forall|s: int| 0 <= s < 32 implies #[trigger] freqs.offset@[s] <= block_length by {
            assert(items::offset_count(its, s) <= its.len());
        }
        assert(freqs.litlen@[256] == 0);
    }
    let ghost f0 = *freqs;
    freqs.litlen[256] = freqs.litlen[256] + 1;
    proof {
        assert forall|s: int| 0 <= s < 288 implies #[trigger] freqs.litlen@[s] == items::litlen_count(
            input@,
            base as int,
            its,
            s,
        ) + if s == 256 {
            1int
        } else {
            0
        } by {
            assert(f0.litlen@[s] == items::litlen_count(input@, base as int, its, s));
        }
        assert forall|s: int| 0 <= s < 32 implies #[trigger] freqs.offset@[s] == items::offset_count(
            its,
            s,
        ) by {
            assert(f0.offset@[s] == items::offset_count(its, s));
        }
    }
    make_huffman_codes(freqs, codes);
    proof {
        assert(freqs.counts(input@, base as int, its, 1));
        assert(codes_for(
            input@,
            base as int,
            its,
            codes.lens_litlen@,
            codes.lens_offset@,
        )) by {
            reveal(built);
            reveal(codes_for);
        }
    }
    flush_block_inner(
        os,
        input,
        base,
        block_length,
        BlockOutput::Sequences(seqs),
        freqs,
        codes,
        static_codes,
        is_final_block,
        best,
    );
    proof {
        if !os.overflow {
            lemma_coded_block(
                b0,
                os.bits(),
                input@,
                base as int,
                block_length as int,
                its,
                is_final_block,
                *freqs,
                *codes,
                !best,
            );
        } else if !old(os).overflow {
            lemma_misfits(
                b0,
                os.buf@.len() as int,
                input@,
                base as int,
                block_length as int,
                its,
                is_final_block,
                *freqs,
                *codes,
                !best,
            );
        }
    }
}

} // verus!
