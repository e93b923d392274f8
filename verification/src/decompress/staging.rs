//! Reading bits from an input source through a staging buffer.

use crate::arith::{drop_bits, extract_varbits, min_usize, raise_bits};
use crate::bits;
use crate::decompress::reader;
use crate::decompress::reader::{BitInput, CONSUMABLE_NBITS};
use crate::decompress::source::InputSource;
use crate::error::DecompressionError;
use crate::stream;
use vstd::arithmetic::power2::*;
use vstd::prelude::*;

verus! {

/// Size of the internal input staging buffer.
pub const INPUT_BUF_SIZE: usize = 512;

/// A position in the bits of an input source.
///
/// Bytes go from the source to the staging buffer, and from there to `bitbuf`. Past
/// the end of the source the reader supplies zero bytes and counts them in
/// `overread_count`.
pub struct StagedReader {
    /// The staging buffer.
    pub buf: Vec<u8>,
    /// Where the staged bytes end.
    pub len: usize,
    /// Where the staged bytes begin that have not been read.
    pub pos: usize,
    /// The source has no more bytes.
    pub at_end: bool,
    pub bitbuf: u64,
    pub bitsleft: u32,
    pub overread_count: usize,
    /// All bytes of the source.
    pub whole: Ghost<Seq<u8>>,
    /// How many of them have been staged.
    pub taken: Ghost<int>,
}

impl BitInput for StagedReader {
    open spec fn data(&self) -> Seq<u8> {
        self.whole@
    }

    open spec fn staged(&self) -> int {
        self.taken@
    }

    open spec fn pos(&self) -> int {
        8 * (self.taken@ - (self.len - self.pos) + self.overread_count) - self.bitsleft
    }

    open spec fn avail(&self) -> int {
        self.bitsleft as int
    }

    open spec fn wf(&self) -> bool {
        &&& self.buf@.len() == INPUT_BUF_SIZE
        &&& self.pos <= self.len <= INPUT_BUF_SIZE
        &&& self.len - self.pos <= self.taken@ <= self.whole@.len()
        &&& forall|i: int|
            self.pos <= i < self.len ==> #[trigger] self.buf@[i] == self.whole@[self.taken@
                - self.len + i]
        &&& self.at_end ==> self.taken@ == self.whole@.len()
        &&& self.bitsleft <= 63
        &&& self.overread_count <= 8
        &&& self.overread_count > 0 ==> self.pos == self.len && self.at_end
        &&& self.pos() >= 0
        &&& self.bitbuf == bits::le_val(
            bits::to_bits(self.whole@),
            self.pos(),
            self.bitsleft as nat,
        )
    }

    open spec fn at_hand(&self, n: int) -> bool {
        self.at_end || 8 * (self.len - self.pos) + self.bitsleft >= n + 64
    }

    proof fn lemma_at_hand(&self, n: int, m: int) {
    }

    #[inline]
    fn bits_left(&self) -> (r: u32) {
        self.bitsleft
    }

    fn refill_bits(&mut self) -> (r: Result<(), DecompressionError>)
        ensures
            final(self).taken == old(self).taken,
            final(self).whole == old(self).whole,
    {
        let ghost b = bits::to_bits(self.whole@);
        let ghost p = self.pos();
        while self.bitsleft < CONSUMABLE_NBITS
            invariant
                self.wf(),
                self.pos() == p,
                p == old(self).pos(),
                self.whole == old(self).whole,
                self.taken == old(self).taken,
                self.at_end == old(self).at_end,
                old(self).at_hand(0),
                self.at_end || 8 * (self.len - self.pos) + self.bitsleft == 8 * (old(self).len
                    - old(self).pos) + old(self).bitsleft,
                b == bits::to_bits(self.whole@),
            decreases 64 - self.bitsleft,
        {
            let ghost k = self.bitsleft as nat;
            proof {
                bits::lemma_le_split(b, p, k, 8);
                bits::lemma_le_bound(b, p, k + 8);
                bits::lemma_le_bound(b, p, k);
                lemma2_to64();
                lemma2_to64_rest();
                lemma_pow2_strictly_increases(k + 8, 64);
            }
            if self.pos < self.len {
                let byte: u64 = self.buf[self.pos] as u64;
                proof {
                    bits::lemma_to_bits_byte(self.whole@, self.taken@ - self.len + self.pos);
                    vstd::arithmetic::mul::lemma_mul_is_commutative(pow2(k) as int, byte as int);
                }
                self.bitbuf = self.bitbuf + raise_bits(byte, self.bitsleft);
                self.pos = self.pos + 1;
            } else {
                proof {
                    reader::lemma_zero_bits(b, p + k, 8);
                    assert(pow2(k) * 0 == 0);
                }
                if self.overread_count == 8 {
                    return Err(DecompressionError::BadData);
                }
                self.overread_count = self.overread_count + 1;
            }
            self.bitsleft = self.bitsleft + 8;
        }
        Ok(())
    }

    #[inline]
    fn peek_bits(&self, count: u32) -> (r: u64) {
        proof {
            bits::lemma_le_divmod(
                bits::to_bits(self.whole@),
                self.pos(),
                count as nat,
                self.bitsleft as nat,
            );
            bits::lemma_le_bound(bits::to_bits(self.whole@), self.pos(), count as nat);
        }
        extract_varbits(self.bitbuf, count)
    }

    #[inline]
    fn consume(&mut self, count: u32)
        ensures
            final(self).taken == old(self).taken,
            final(self).whole == old(self).whole,
    {
        proof {
            bits::lemma_le_divmod(
                bits::to_bits(self.whole@),
                self.pos(),
                count as nat,
                self.bitsleft as nat,
            );
        }
        self.bitbuf = drop_bits(self.bitbuf, count);
        self.bitsleft = self.bitsleft - count;
    }
}

impl StagedReader {
    /// What the source still has is what has not been staged.
    pub open spec fn fits<S: InputSource>(&self, source: S) -> bool {
        source.remaining() == self.whole@.skip(self.taken@)
    }

    /// A reader at the start of a source that holds `whole`.
    pub fn new(whole: Ghost<Seq<u8>>) -> (r: Self)
        ensures
            r.wf(),
            r.data() == whole@,
            r.taken@ == 0,
            r.pos() == 0,
            r.bitsleft == 0,
            r.overread_count == 0,
            r.len == 0,
            r.pos == 0,
    {
        StagedReader {
            buf: vec![0u8; 512],
            len: 0,
            pos: 0,
            at_end: false,
            bitbuf: 0,
            bitsleft: 0,
            overread_count: 0,
            whole,
            taken: Ghost(0),
        }
    }

    /// Move the staged bytes to the front of the buffer.
    fn compact(&mut self)
        requires
            old(self).wf(),
        ensures
            final(self).wf(),
            final(self).pos == 0,
            final(self).len == old(self).len - old(self).pos,
            final(self).whole == old(self).whole,
            final(self).taken == old(self).taken,
            final(self).at_end == old(self).at_end,
            final(self).bitbuf == old(self).bitbuf,
            final(self).bitsleft == old(self).bitsleft,
            final(self).overread_count == old(self).overread_count,
    {
        let n: usize = self.len - self.pos;
        let from: usize = self.pos;
        let mut i: usize = 0;
        while i < n
            invariant
                from == old(self).pos,
                n == old(self).len - from,
                i <= n,
                old(self).wf(),
                self.buf@.len() == INPUT_BUF_SIZE,
                self.len == old(self).len,
                self.pos == old(self).pos,
                self.whole == old(self).whole,
                self.taken == old(self).taken,
                self.at_end == old(self).at_end,
                self.bitbuf == old(self).bitbuf,
                self.bitsleft == old(self).bitsleft,
                self.overread_count == old(self).overread_count,
                forall|j: int| 0 <= j < i ==> #[trigger] self.buf@[j] == old(self).buf@[from + j],
                forall|j: int| i <= j < 512 ==> #[trigger] self.buf@[j] == old(self).buf@[j],
            decreases n - i,
        {
            let byte: u8 = self.buf[from + i];
            self.buf.set(i, byte);
            i = i + 1;
        }
        self.len = n;
        self.pos = 0;
        proof {
            assert forall|j: int| 0 <= j < n implies #[trigger] self.buf@[j] == self.whole@[
            self.taken@ - n + j] by {
                assert(old(self).buf@[from + j] == self.whole@[self.taken@ - old(self).len + (from
                    + j)]);
            }
        }
    }

    /// Compact the staging buffer and pull more data from the source, until it is
    /// full or the source is exhausted.
    pub fn fill_input<S: InputSource>(&mut self, source: &mut S) -> (r: Result<(), S::Error>)
        requires
            old(self).wf(),
            old(self).fits(*old(source)),
        ensures
            final(self).wf(),
            final(self).fits(*final(source)),
            final(self).data() == old(self).data(),
            final(self).pos() == old(self).pos(),
            final(self).bitsleft == old(self).bitsleft,
            final(self).overread_count == old(self).overread_count,
            final(self).pos == 0,
            r is Ok ==> final(self).at_end || final(self).len == INPUT_BUF_SIZE,
            S::never_fails() ==> r is Ok,
    {
        if self.pos > 0 {
            self.compact();
        }
        while self.len < INPUT_BUF_SIZE && !self.at_end
            invariant
                self.wf(),
                self.fits(*source),
                self.data() == old(self).data(),
                self.pos() == old(self).pos(),
                self.bitsleft == old(self).bitsleft,
                self.overread_count == old(self).overread_count,
                self.pos == 0,
            decreases
                    INPUT_BUF_SIZE - self.len + if self.at_end {
                        0int
                    } else {
                        1
                    },
        {
            let ghost before = *self;
            let ghost rest = source.remaining();
            let n: usize = match source.fill_buf() {
                Ok(src) => {
                    let n: usize = min_usize(src.len(), INPUT_BUF_SIZE - self.len);
                    let ghost s = src@;
                    let mut i: usize = 0;
                    while i < n
                        invariant
                            i <= n <= src@.len(),
                            s == src@,
                            before.wf(),
                            before.pos == 0,
                            before.len + n <= INPUT_BUF_SIZE,
                            self.buf@.len() == INPUT_BUF_SIZE,
                            self.len == before.len,
                            self.pos == 0,
                            self.whole == before.whole,
                            self.taken == before.taken,
                            self.at_end == before.at_end,
                            self.bitbuf == before.bitbuf,
                            self.bitsleft == before.bitsleft,
                            self.overread_count == before.overread_count,
                            forall|j: int|
                                0 <= j < before.len ==> #[trigger] self.buf@[j] == before.buf@[j],
                            forall|j: int|
                                before.len <= j < before.len + i ==> #[trigger] self.buf@[j] == s[j
                                    - before.len],
                        decreases n - i,
                    {
                        self.buf.set(self.len + i, src[i]);
                        i = i + 1;
                    }
                    proof {
                        assert forall|j: int| 0 <= j < n implies #[trigger] s[j]
                            == self.whole@[self.taken@ + j] by {
                            assert(rest.take(s.len() as int)[j] == rest[j]);
                        }
                    }
                    n
                },
                Err(e) => {
                    return Err(e);
                },
            };
            if n == 0 {
                self.at_end = true;
            } else {
                source.consume(n);
                self.len = self.len + n;
                proof {
                    self.taken@ = self.taken@ + n;
                    assert(rest.skip(n as int) =~= self.whole@.skip(self.taken@));
                }
            }
        }
        Ok(())
    }

    /// The bytes that are staged.
    pub fn staged_bytes(&self) -> (r: &[u8])
        requires
            self.wf(),
        ensures
            r@ == self.buf@.subrange(self.pos as int, self.len as int),
    {
        vstd::slice::slice_subrange(self.buf.as_slice(), self.pos, self.len)
    }

    /// Move past `n` staged bytes.
    pub fn skip_staged(&mut self, n: usize)
        requires
            old(self).wf(),
            old(self).bitsleft == 0,
            old(self).overread_count == 0,
            n <= old(self).len - old(self).pos,
        ensures
            final(self).wf(),
            final(self).whole == old(self).whole,
            final(self).taken == old(self).taken,
            final(self).pos() == old(self).pos() + 8 * n,
    {
        self.pos = self.pos + n;
    }

    /// The position is past the end of the data.
    pub fn past_end(&self) -> (r: bool)
        requires
            self.wf(),
        ensures
            r == (self.pos() > 8 * self.data().len()),
    {
        self.overread_count > (self.bitsleft / 8) as usize
    }

    /// Move past the bits up to the next whole byte.
    pub fn skip_to_byte(&mut self)
        requires
            old(self).wf(),
        ensures
            final(self).wf(),
            final(self).whole == old(self).whole,
            final(self).taken == old(self).taken,
            final(self).pos() == stream::align8(old(self).pos()),
            final(self).bitsleft == old(self).bitsleft - old(self).bitsleft % 8,
            final(self).overread_count == old(self).overread_count,
    {
        let pad: u32 = self.bitsleft % 8;
        self.consume(pad);
    }

    /// Read the byte at the position, if there is one.
    pub fn next_byte<S: InputSource>(&mut self, source: &mut S) -> (r: Result<
        Option<u8>,
        S::Error,
    >)
        requires
            old(self).wf(),
            old(self).fits(*old(source)),
            old(self).pos() % 8 == 0,
        ensures
            final(self).wf(),
            final(self).fits(*final(source)),
            final(self).data() == old(self).data(),
            match r {
                Ok(Some(byte)) => {
                    &&& old(self).pos() < 8 * old(self).data().len()
                    &&& byte == old(self).data()[old(self).pos() / 8]
                    &&& final(self).pos() == old(self).pos() + 8
                },
                Ok(None) => {
                    &&& old(self).pos() >= 8 * old(self).data().len()
                    &&& final(self).pos() == old(self).pos()
                },
                Err(_) => final(self).pos() == old(self).pos() && !S::never_fails(),
            },
    {
        if self.bitsleft > 0 {
            if (self.bitsleft / 8) as usize <= self.overread_count {
                return Ok(None);
            }
            proof {
                lemma2_to64();
                bits::lemma_to_bits_byte(self.whole@, self.pos() / 8);
            }
            let byte: u64 = self.peek_bits(8);
            self.consume(8);
            return Ok(Some(byte as u8));
        }
        if self.pos >= self.len {
            match self.fill_input(source) {
                Ok(_) => {},
                Err(e) => {
                    return Err(e);
                },
            }
        }
        if self.pos >= self.len {
            return Ok(None);
        }
        let byte: u8 = self.buf[self.pos];
        self.pos = self.pos + 1;
        Ok(Some(byte))
    }
}

} // verus!
