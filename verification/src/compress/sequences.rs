//! Sequence store for deferred literal/match encoding.
//!
//! A "sequence" represents a run of literals followed by a match (or
//! end-of-block). Sequences are accumulated during parsing, then encoded all at
//! once after the block's Huffman codes have been computed.

use vstd::prelude::*;

verus! {

/// One more than the longest literal run.
pub const SEQ_LITRUNLEN_LIMIT: u32 = 0x80_0000;

/// A run of literals followed by a match or end-of-block.
#[derive(Clone, Copy)]
pub struct Sequence {
    /// Bits 0..22: number of literals in this run.
    /// Bits 23..31: length of the following match (0 = end of block).
    pub litrunlen_and_length: u32,
    /// Match offset (only valid if length > 0).
    pub offset: u16,
    /// Match offset slot (only valid if length > 0).
    pub offset_slot: u16,
}

impl Sequence {
    /// The number of literals.
    pub open spec fn lits(&self) -> int {
        self.litrunlen_and_length as int % 0x80_0000
    }

    /// The length of the match.
    pub open spec fn len(&self) -> int {
        self.litrunlen_and_length as int / 0x80_0000
    }

    /// Get the literal run length.
    #[inline]
    pub fn litrunlen(self) -> (r: u32)
        ensures
            r == self.lits(),
    {
        self.litrunlen_and_length % 0x80_0000
    }

    /// Get the match length (0 = last sequence in block).
    #[inline]
    pub fn length(self) -> (r: u32)
        ensures
            r == self.len(),
    {
        self.litrunlen_and_length / 0x80_0000
    }

    /// The items of the sequence: its literals, then its match.
    pub open spec fn items(&self) -> Seq<(int, int)> {
        literals(self.lits()) + if self.len() > 0 {
            seq![(self.len(), self.offset as int)]
        } else {
            Seq::empty()
        }
    }
}

/// `n` literals.
pub open spec fn literals(n: int) -> Seq<(int, int)> {
    Seq::new(n as nat, |i: int| (1int, 0int))
}

/// The items of a number of sequences.
pub open spec fn items_of(seqs: Seq<Sequence>) -> Seq<(int, int)>
    decreases seqs.len(),
{
    if seqs.len() == 0 {
        Seq::empty()
    } else {
        items_of(seqs.drop_last()) + seqs.last().items()
    }
}

/// The items of the sequences up to `k`, and those of the next one, stand at the
/// front of the items of all.
pub proof fn lemma_items_at(seqs: Seq<Sequence>, k: int)
    requires
        0 <= k < seqs.len(),
    ensures
        ({
            let n = items_of(seqs.take(k)).len() as int;
            let m = items_of(seqs.take(k + 1)).len() as int;
            &&& m == n + seqs[k].items().len()
            &&& m <= items_of(seqs).len()
            &&& items_of(seqs).take(n) == items_of(seqs.take(k))
            &&& items_of(seqs).take(m) == items_of(seqs.take(k + 1))
            &&& items_of(seqs).subrange(n, m) == seqs[k].items()
        }),
    decreases seqs.len(),
{
    let d = seqs.drop_last();
    assert(seqs.take(k + 1).drop_last() =~= seqs.take(k));
    let n = items_of(seqs.take(k)).len() as int;
    let m = items_of(seqs.take(k + 1)).len() as int;
    if k == seqs.len() - 1 {
        assert(seqs.take(k) =~= d);
        assert(seqs.take(k + 1) =~= seqs);
        assert(items_of(seqs).take(n) =~= items_of(d));
        assert(items_of(seqs).take(m) =~= items_of(seqs));
        assert(items_of(seqs).subrange(n, m) =~= seqs[k].items());
    } else {
        lemma_items_at(d, k);
        assert(d.take(k) =~= seqs.take(k));
        assert(d.take(k + 1) =~= seqs.take(k + 1));
        assert(items_of(seqs).take(n) =~= items_of(d).take(n));
        assert(items_of(seqs).take(m) =~= items_of(d).take(m));
        assert(items_of(seqs).subrange(n, m) =~= items_of(d).subrange(n, m));
    }
}

} // verus!
