//! Writing fields, symbols and block types to an output bitstream.

use crate::bits;
use crate::codes;
use crate::compress::bitstream;
use crate::compress::bitstream::OutputBitstream;
use crate::compress::emit;
use crate::compress::precode;
use vstd::arithmetic::power2::*;
use vstd::prelude::*;

verus! {

/// The stream `new` is `old` with the bits `s` behind it, or it has run out of
/// space; it does not where there is room.
pub open spec fn wrote(old: OutputBitstream<'_>, new: OutputBitstream<'_>, s: Seq<bool>) -> bool {
    &&& new.flushed()
    &&& new.keeps(old)
    &&& new.buf@.len() == old.buf@.len()
    &&& old.overflow ==> new.overflow
    &&& !new.overflow ==> new.bits() == old.bits() + s
    &&& !old.overflow && old.bits().len() + s.len() <= 8 * old.buf@.len() ==> !new.overflow
}

pub proof fn lemma_wrote_trans(
    a: OutputBitstream<'_>,
    b: OutputBitstream<'_>,
    c: OutputBitstream<'_>,
    s: Seq<bool>,
    t: Seq<bool>,
)
    requires
        wrote(a, b, s),
        wrote(b, c, t),
    ensures
        wrote(a, c, s + t),
{
    bitstream::lemma_keeps_trans(a, b, c);
    if !c.overflow {
        assert(a.bits() + s + t =~= a.bits() + (s + t));
    }
}

pub proof fn lemma_wrote_nothing(a: OutputBitstream<'_>)
    requires
        a.flushed(),
    ensures
        wrote(a, a, Seq::empty()),
{
    assert(a.bits() + Seq::<bool>::empty() =~= a.bits());
}

/// Write a field of `n` bits.
#[inline]
pub fn put_bits(os: &mut OutputBitstream<'_>, x: u32, n: u32)
    requires
        old(os).flushed(),
        n <= 32,
        x < pow2(n as nat),
    ensures
        wrote(*old(os), *final(os), bits::num_bits(x as int, n as nat)),
        final(final(os).buf)@ == final(old(os).buf)@,
{
    os.add_bits(x, n);
    os.drain_bits();
}

/// Write the codeword of a symbol.
#[inline]
pub fn put_symbol(
    os: &mut OutputBitstream<'_>,
    codewords: &[u32],
    lens: &[u8],
    sym: usize,
    code: Ghost<Seq<u8>>,
)
    requires
        old(os).flushed(),
        emit::code_ok(code@),
        codes::used(code@, sym as int),
        sym < lens@.len(),
        sym < codewords@.len(),
        lens@[sym as int] == code@[sym as int],
        codewords@[sym as int] == bits::rev(
            codes::codeword(code@, sym as int),
            code@[sym as int] as nat,
        ),
    ensures
        wrote(*old(os), *final(os), emit::code_bits(code@, sym as int)),
        final(final(os).buf)@ == final(old(os).buf)@,
{
    proof {
        codes::lemma_codeword(code@, sym as int);
        bits::lemma_rev_bound(codes::codeword(code@, sym as int), code@[sym as int] as nat);
    }
    put_bits(os, codewords[sym], lens[sym] as u32);
}

/// Write the type of a block.
pub fn put_type(os: &mut OutputBitstream<'_>, is_final_block: bool, kind: u32)
    requires
        old(os).flushed(),
        kind < 4,
    ensures
        wrote(*old(os), *final(os), precode::type_bits(is_final_block, kind as int)),
        final(final(os).buf)@ == final(old(os).buf)@,
{
    proof {
        lemma2_to64();
    }
    let ghost o0 = *os;
    if is_final_block {
        put_bits(os, 1, 1);
    } else {
        put_bits(os, 0, 1);
    }
    let ghost o1 = *os;
    put_bits(os, kind, 2);
    proof {
        lemma_wrote_trans(
            o0,
            o1,
            *os,
            bits::num_bits(
                if is_final_block {
                    1
                } else {
                    0
                },
                1,
            ),
            bits::num_bits(kind as int, 2),
        );
    }
}

} // verus!
