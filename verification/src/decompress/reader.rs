//! Reading bits from a byte slice.

use crate::arith::{drop_bits, extract_varbits, raise_bits};
use crate::bits;
use crate::error::DecompressionError;
use crate::fast_bytes;
use crate::fast_bytes::load_u64_le;
use crate::stream;
use vstd::arithmetic::power2::*;
use vstd::prelude::*;

verus! {

/// Number of bits that are available after a refill.
pub const CONSUMABLE_NBITS: u32 = 56;

/// Bits read one after the other, in the order of the stream.
///
/// Some bits are held ready; [`refill_bits`](Self::refill_bits) makes more of them
/// available. Past the end of the data there are zeros.
pub trait BitInput: Sized {
    /// All bytes, whether or not they have been read.
    spec fn data(&self) -> Seq<u8>;

    /// How many of them the reader has got so far; reading does not get more.
    spec fn staged(&self) -> int;

    /// The bit position.
    spec fn pos(&self) -> int;

    /// How many bits are ready.
    spec fn avail(&self) -> int;

    /// The bits that are ready are those at the position.
    spec fn wf(&self) -> bool;

    /// The next `n` bits, and as many as a refill makes available, are at hand.
    spec fn at_hand(&self, n: int) -> bool;

    /// How many bits are ready.
    fn bits_left(&self) -> (r: u32)
        requires
            self.wf(),
        ensures
            r == self.avail(),
            r <= 63,
    ;

    /// Make at least [`CONSUMABLE_NBITS`] bits available.
    ///
    /// Fails where the position is too far past the end of the data.
    fn refill_bits(&mut self) -> (r: Result<(), DecompressionError>)
        requires
            old(self).wf(),
            old(self).at_hand(0),
        ensures
            final(self).data() == old(self).data(),
            final(self).staged() == old(self).staged(),
            r is Ok <==> old(self).pos() <= 8 * old(self).data().len() + stream::overread(),
            r is Ok ==> final(self).wf() && final(self).pos() == old(self).pos()
                && final(self).avail() >= CONSUMABLE_NBITS,
            r is Ok ==> forall|n: int| #[trigger]
                final(self).at_hand(n) == old(self).at_hand(n),
            r matches Err(e) ==> e is BadData,
    ;

    /// The next `count` bits as a number, without consuming them.
    fn peek_bits(&self, count: u32) -> (r: u64)
        requires
            self.wf(),
            count <= self.avail(),
        ensures
            r == bits::le_val(bits::to_bits(self.data()), self.pos(), count as nat),
            r < pow2(count as nat),
    ;

    /// Move past `count` bits.
    fn consume(&mut self, count: u32)
        requires
            old(self).wf(),
            count <= old(self).avail(),
        ensures
            final(self).data() == old(self).data(),
            final(self).staged() == old(self).staged(),
            final(self).wf(),
            final(self).pos() == old(self).pos() + count,
            final(self).avail() == old(self).avail() - count,
            forall|n: int| #[trigger]
                final(self).at_hand(n) == old(self).at_hand(n + count),
    ;

    /// What is at hand for more is at hand for less.
    proof fn lemma_at_hand(&self, n: int, m: int)
        requires
            self.at_hand(n),
            m <= n,
        ensures
            self.at_hand(m),
    ;
}

/// The next `count` bits as a number, which are consumed.
#[inline]
pub fn take_bits<R: BitInput>(br: &mut R, count: u32) -> (r: u64)
    requires
        old(br).wf(),
        count <= old(br).avail(),
    ensures
        final(br).data() == old(br).data(),
        final(br).staged() == old(br).staged(),
        final(br).wf(),
        final(br).pos() == old(br).pos() + count,
        final(br).avail() == old(br).avail() - count,
        forall|n: int| #[trigger] final(br).at_hand(n) == old(br).at_hand(n + count),
        r == bits::le_val(bits::to_bits(old(br).data()), old(br).pos(), count as nat),
        r < pow2(count as nat),
{
    let r: u64 = br.peek_bits(count);
    br.consume(count);
    r
}

/// A position in the bits of a byte slice.
///
/// Up to 63 bits are held in `bitbuf`. Past the end of the slice the reader
/// supplies zero bytes and counts them in `overread_count`.
pub struct BitReader<'a> {
    pub input: &'a [u8],
    pub bitbuf: u64,
    pub bitsleft: u32,
    pub in_pos: usize,
    pub overread_count: usize,
}

impl<'a> BitReader<'a> {
    /// A reader at the start of the slice.
    pub fn new(input: &'a [u8]) -> (r: Self)
        ensures
            r.data() == input@,
            r.input == input,
            r.pos() == 0,
            r.wf(),
    {
        BitReader { input, bitbuf: 0, bitsleft: 0, in_pos: 0, overread_count: 0 }
    }
}

impl<'a> BitInput for BitReader<'a> {
    open spec fn data(&self) -> Seq<u8> {
        self.input@
    }

    open spec fn staged(&self) -> int {
        self.input@.len() as int
    }

    open spec fn pos(&self) -> int {
        8 * (self.in_pos + self.overread_count) - self.bitsleft
    }

    open spec fn avail(&self) -> int {
        self.bitsleft as int
    }

    open spec fn wf(&self) -> bool {
        &&& self.bitsleft <= 63
        &&& self.in_pos <= self.input@.len()
        &&& self.overread_count <= 8
        &&& self.overread_count > 0 ==> self.in_pos == self.input@.len()
        &&& self.pos() >= 0
        &&& self.bitbuf == bits::le_val(
            bits::to_bits(self.input@),
            self.pos(),
            self.bitsleft as nat,
        )
    }

    open spec fn at_hand(&self, n: int) -> bool {
        true
    }

    proof fn lemma_at_hand(&self, n: int, m: int) {
    }

    #[inline]
    fn bits_left(&self) -> (r: u32) {
        self.bitsleft
    }

    fn refill_bits(&mut self) -> (r: Result<(), DecompressionError>)
        ensures
            final(self).input == old(self).input,
    {
        let input: &[u8] = self.input;
        let n: usize = input.len();
        let ghost b = bits::to_bits(input@);
        let ghost p = self.pos();
        if n >= 8 && self.in_pos <= n - 8 {
            let m: u32 = 7 - self.bitsleft / 8;
            let word: u64 = load_u64_le(input, self.in_pos);
            let low: u64 = extract_varbits(word, 8 * m);
            proof {
                let q = 8 * self.in_pos;
                let k = self.bitsleft as nat;
                fast_bytes::lemma_load64_bits(input@, self.in_pos as int);
                bits::lemma_le_divmod(b, q, (8 * m) as nat, 64);
                assert(low == bits::le_val(b, q, (8 * m) as nat));
                bits::lemma_le_split(b, p, k, (8 * m) as nat);
                bits::lemma_le_bound(b, p, k + 8 * m as nat);
                bits::lemma_le_bound(b, p, k);
                lemma2_to64();
                lemma2_to64_rest();
                assert(k + 8 * m <= 63);
                if k + 8 * m < 64 {
                    lemma_pow2_strictly_increases(k + 8 * m as nat, 64);
                }
                vstd::arithmetic::mul::lemma_mul_is_commutative(pow2(k) as int, low as int);
            }
            self.bitbuf = self.bitbuf + raise_bits(low, self.bitsleft);
            self.in_pos = self.in_pos + m as usize;
            self.bitsleft = self.bitsleft + 8 * m;
        } else {
            while self.bitsleft < CONSUMABLE_NBITS
                invariant
                    n == input@.len(),
                    self.input == input,
                    old(self).input == input,
                    self.wf(),
                    self.pos() == p,
                    p == old(self).pos(),
                    b == bits::to_bits(input@),
                decreases 64 - self.bitsleft,
            {
                let ghost k = self.bitsleft as nat;
                proof {
                    bits::lemma_le_split(b, p, k, 8);
                    bits::lemma_le_bound(b, p, k + 8);
                    bits::lemma_le_bound(b, p, k);
                    lemma2_to64();
                    lemma2_to64_rest();
                    lemma_pow2_strictly_increases(k + 8, 64);
                }
                if self.in_pos < n {
                    let byte: u64 = input[self.in_pos] as u64;
                    proof {
                        bits::lemma_to_bits_byte(input@, self.in_pos as int);
                        vstd::arithmetic::mul::lemma_mul_is_commutative(pow2(k) as int, byte as int);
                    }
                    self.bitbuf = self.bitbuf + raise_bits(byte, self.bitsleft);
                    self.in_pos = self.in_pos + 1;
                } else {
                    proof {
                        lemma_zero_bits(b, p + k, 8);
                        assert(pow2(k) * 0 == 0);
                    }
                    if self.overread_count == 8 {
                        return Err(DecompressionError::BadData);
                    }
                    self.overread_count = self.overread_count + 1;
                }
                self.bitsleft = self.bitsleft + 8;
            }
        }
        Ok(())
    }

    #[inline]
    fn peek_bits(&self, count: u32) -> (r: u64) {
        proof {
            bits::lemma_le_divmod(
                bits::to_bits(self.input@),
                self.pos(),
                count as nat,
                self.bitsleft as nat,
            );
            bits::lemma_le_bound(bits::to_bits(self.input@), self.pos(), count as nat);
        }
        extract_varbits(self.bitbuf, count)
    }

    #[inline]
    fn consume(&mut self, count: u32)
        ensures
            final(self).input == old(self).input,
            final(self).in_pos == old(self).in_pos,
            final(self).overread_count == old(self).overread_count,
    {
        proof {
            bits::lemma_le_divmod(
                bits::to_bits(self.input@),
                self.pos(),
                count as nat,
                self.bitsleft as nat,
            );
        }
        self.bitbuf = drop_bits(self.bitbuf, count);
        self.bitsleft = self.bitsleft - count;
    }
}

/// Past the end of the data all bits are zero.
pub proof fn lemma_zero_bits(b: Seq<bool>, p: int, n: nat)
    requires
        p >= b.len(),
    ensures
        bits::le_val(b, p, n) == 0,
    decreases n,
{
    if n > 0 {
        lemma_zero_bits(b, p + 1, (n - 1) as nat);
    }
}

} // verus!
