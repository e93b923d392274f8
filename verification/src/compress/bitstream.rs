//! Output bitstream writer for DEFLATE compression.
//!
//! Bits are collected in a 64-bit buffer, least significant bit first, and
//! moved to the output a byte at a time.

use crate::arith::raise_bits;
use crate::bits;
use vstd::arithmetic::power2::*;
use vstd::prelude::*;

verus! {

/// Number of usable bits in the bit buffer.
pub const BITBUF_NBITS: u32 = 63;

/// Can `n` bits always be buffered after a flush? (Up to 7 bits may remain
/// after a flush.)
pub fn can_buffer(n: u32) -> (r: bool)
    ensures
        r == (7 + n <= BITBUF_NBITS),
{
    n <= BITBUF_NBITS - 7
}

/// Output bitstream for writing compressed data.
pub struct OutputBitstream<'a> {
    /// Bits that haven't yet been written to the output buffer.
    pub bitbuf: u64,
    /// Number of bits currently held in `bitbuf` (at most 7 after a flush).
    pub bitcount: u32,
    /// Current write position in the output buffer.
    pub pos: usize,
    /// Output buffer.
    pub buf: &'a mut [u8],
    /// Whether the output buffer ran out of space.
    pub overflow: bool,
}

/// The first `n` bits that a number of that many bits stands for, behind the
/// bits of a byte sequence.
pub open spec fn joined(data: Seq<u8>, x: int, n: nat) -> Seq<bool> {
    bits::to_bits(data) + bits::num_bits(x, n)
}

impl<'a> OutputBitstream<'a> {
    /// All bits written so far.
    pub open spec fn bits(&self) -> Seq<bool> {
        joined(self.buf@.take(self.pos as int), self.bitbuf as int, self.bitcount as nat)
    }

    /// The size of the output buffer.
    pub open spec fn size(&self) -> int {
        self.buf@.len() as int
    }

    /// The buffered bits fit the buffer and the position lies in the output.
    pub open spec fn wf(&self) -> bool {
        &&& self.pos <= self.buf@.len()
        &&& self.buf@.len() <= usize::MAX
        &&& self.bitcount <= BITBUF_NBITS
        &&& self.bitbuf < pow2(self.bitcount as nat)
    }

    /// The stream is at a place where at most 7 bits are buffered.
    pub open spec fn flushed(&self) -> bool {
        &&& self.wf()
        &&& self.bitcount <= 7
    }

    /// What was written to the output before stays there.
    pub open spec fn keeps(&self, old: OutputBitstream<'_>) -> bool {
        &&& self.pos >= old.pos
        &&& self.buf@.take(old.pos as int) == old.buf@.take(old.pos as int)
    }

    /// The bytes were written at the position, where they fit; else nothing was. The
    /// buffered bits stay.
    #[verifier::opaque]
    pub open spec fn wrote(&self, old: OutputBitstream<'_>, d: Seq<u8>) -> bool {
        let fits = old.pos + d.len() <= old.buf@.len();
        &&& self.bitbuf == old.bitbuf
        &&& self.bitcount == old.bitcount
        &&& self.overflow == (old.overflow || !fits)
        &&& self.pos == old.pos + if fits {
            d.len() as int
        } else {
            0
        }
        &&& self.buf@ == if fits {
            overlaid(old.buf@, old.pos as int, d)
        } else {
            old.buf@
        }
    }

    /// Create a new output bitstream writing to `buf`.
    pub fn new(buf: &'a mut [u8]) -> (s: Self)
        ensures
            s.flushed(),
            s.bits() == Seq::<bool>::empty(),
            !s.overflow,
            s.pos == 0,
            s.bitcount == 0,
            s.buf@ == old(buf)@,
            final(s.buf)@ == final(buf)@,
    {
        let n: usize = buf.len();
        let s = OutputBitstream { bitbuf: 0, bitcount: 0, pos: 0, buf, overflow: false };
        proof {
            lemma2_to64();
            assert(s.bits() =~= Seq::<bool>::empty());
        }
        s
    }

    /// Add bits to the bit buffer.
    #[inline]
    pub fn add_bits(&mut self, bits: u32, n: u32)
        requires
            old(self).wf(),
            old(self).bitcount + n <= BITBUF_NBITS,
            bits < pow2(n as nat),
        ensures
            final(self).wf(),
            final(self).bits() == old(self).bits() + bits::num_bits(bits as int, n as nat),
            final(self).bitcount == old(self).bitcount + n,
            final(self).pos == old(self).pos,
            final(self).overflow == old(self).overflow,
            final(self).buf@ == old(self).buf@,
            final(final(self).buf)@ == final(old(self).buf)@,
    {
        let ghost k = self.bitcount as nat;
        let ghost x = self.bitbuf as int;
        proof {
            lemma_add_bits(self.buf@.take(self.pos as int), x, k, bits as int, n as nat);
            lemma2_to64();
            lemma2_to64_rest();
            lemma_pow2_strictly_increases(k + n as nat, 64);
            assert(bits * pow2(k) <= u64::MAX) by (nonlinear_arith)
                requires
                    x + bits * pow2(k) < pow2(k + n as nat),
                    pow2(k + n as nat) < pow2(64),
                    pow2(64) == u64::MAX + 1,
                    x >= 0,
            ;
        }
        self.bitbuf = self.bitbuf + raise_bits(bits as u64, self.bitcount);
        self.bitcount = self.bitcount + n;
    }

    /// Flush bits from the bit buffer to the output buffer.
    /// After this, the bit buffer contains at most 7 bits (a partial byte), unless the
    /// output was too small: then the bytes that fit are written and the other bits stay.
    pub fn flush_bits(&mut self)
        requires
            old(self).wf(),
        ensures
            final(self).wf(),
            final(self).buf@.len() == old(self).buf@.len(),
            final(final(self).buf)@ == final(old(self).buf)@,
            ({
                let whole = old(self).bitcount as int / 8;
                let fits = old(self).pos + whole <= old(self).buf@.len();
                let k = if fits {
                    whole
                } else {
                    old(self).buf@.len() - old(self).pos
                };
                &&& final(self).overflow == (old(self).overflow || !fits)
                &&& final(self).pos == old(self).pos + k
                &&& final(self).bitcount == old(self).bitcount - 8 * k
                &&& fits ==> final(self).bitcount == old(self).bitcount % 8
                &&& final(self).buf@.skip(final(self).pos as int) == old(self).buf@.skip(
                    final(self).pos as int,
                )
            }),
            final(self).bits() == old(self).bits(),
            final(self).keeps(*old(self)),
    {
        let n: usize = self.buf.len();
        let ghost fin = final(self.buf)@;
        let ghost all = self.bits();
        proof {
            assert(all.len() == 8 * self.pos + self.bitcount);
        }
        while self.bitcount >= 8
            invariant
                self.wf(),
                n == self.buf@.len(),
                self.buf@.len() == old(self).buf@.len(),
                final(self.buf)@ == fin,
                fin == final(old(self).buf)@,
                all == old(self).bits(),
                self.overflow == old(self).overflow,
                self.bits() == all,
                all.len() == 8 * self.pos + self.bitcount,
                8 * self.pos + self.bitcount == 8 * old(self).pos + old(self).bitcount,
                old(self).pos <= self.pos <= n,
                self.buf@.take(old(self).pos as int) == old(self).buf@.take(old(self).pos as int),
                self.buf@.skip(self.pos as int) == old(self).buf@.skip(self.pos as int),
            decreases self.bitcount,
        {
            if self.pos < n {
                let byte: u8 = (self.bitbuf % 256) as u8;
                let ghost before = self.buf@;
                let ghost x = self.bitbuf as int;
                let ghost k = self.bitcount as nat;
                proof {
                    lemma_flush_byte(before.take(self.pos as int), x, k);
                    assert(before.update(self.pos as int, byte).take(self.pos + 1) =~= before.take(
                        self.pos as int,
                    ).push(byte));
                    assert(before.update(self.pos as int, byte).skip(self.pos + 1) =~= before.skip(
                        self.pos as int,
                    ).skip(1));
                    assert(old(self).buf@.skip(self.pos + 1) =~= old(self).buf@.skip(
                        self.pos as int,
                    ).skip(1));
                }
                self.buf[self.pos] = byte;
                self.pos = self.pos + 1;
                self.bitbuf = self.bitbuf / 256;
                self.bitcount = self.bitcount - 8;
            } else {
                self.overflow = true;
                return;
            }
        }
    }

    /// Flush bits from the bit buffer to the output buffer, and drop what does not fit, so
    /// that the bit buffer contains at most 7 bits.
    pub fn drain_bits(&mut self)
        requires
            old(self).wf(),
        ensures
            final(self).flushed(),
            final(self).buf@.len() == old(self).buf@.len(),
            final(final(self).buf)@ == final(old(self).buf)@,
            old(self).overflow ==> final(self).overflow,
            !final(self).overflow ==> final(self).bits() == old(self).bits(),
            final(self).overflow == (old(self).overflow || old(self).pos + old(self).bitcount as int
                / 8 > old(self).buf@.len()),
            !old(self).overflow && old(self).bits().len() <= 8 * old(self).buf@.len() ==> !final(
            self).overflow,
            final(self).keeps(*old(self)),
    {
        self.flush_bits();
        if self.bitcount > 7 {
            self.bitbuf = 0;
            self.bitcount = 0;
            proof {
                lemma2_to64();
            }
        }
        proof {
            assert(old(self).bits().len() == 8 * old(self).pos + old(self).bitcount);
        }
    }

    /// Write a single byte directly to the output, in front of the buffered bits.
    pub fn write_byte(&mut self, b: u8)
        requires
            old(self).wf(),
        ensures
            final(self).wf(),
            final(self).bitcount == old(self).bitcount,
            final(self).wrote(*old(self), seq![b]),
            final(self).buf@.len() == old(self).buf@.len(),
            final(final(self).buf)@ == final(old(self).buf)@,
            old(self).overflow ==> final(self).overflow,
            old(self).bitcount == 0 && !final(self).overflow ==> final(self).bits() == old(self).bits()
                + bits::num_bits(b as int, 8),
            old(self).bitcount == 0 && !old(self).overflow ==> (final(self).overflow <==> old(
            self).bits().len() + 8 > 8 * old(self).buf@.len()),
            final(self).keeps(*old(self)),
    {
        reveal(OutputBitstream::wrote);
        let n: usize = self.buf.len();
        if self.pos < n {
            let ghost before = self.buf@;
            let ghost p = self.pos as int;
            self.buf[self.pos] = b;
            self.pos = self.pos + 1;
            proof {
                assert(self.buf@ =~= overlaid(before, p, seq![b]));
                assert(self.buf@.take(p) =~= before.take(p));
                lemma_push_byte(before.take(p), b);
                assert(self.buf@.take(p + 1) =~= before.take(p).push(b));
                if self.bitcount == 0 {
                    assert(old(self).bits() =~= bits::to_bits(before.take(p)));
                    assert(self.bits() =~= bits::to_bits(self.buf@.take(p + 1)));
                }
            }
        } else {
            self.overflow = true;
        }
        proof {
            if self.bitcount == 0 {
                assert(old(self).bits() =~= bits::to_bits(old(self).buf@.take(old(self).pos as int)));
            }
        }
    }

    /// Write a 16-bit little-endian value directly to the output, in front of the buffered
    /// bits; nothing is written where it does not fit.
    pub fn write_le16(&mut self, v: u16)
        requires
            old(self).wf(),
        ensures
            final(self).wf(),
            final(self).bitcount == old(self).bitcount,
            final(self).wrote(*old(self), seq![(v % 256) as u8, (v / 256) as u8]),
            final(self).buf@.len() == old(self).buf@.len(),
            final(final(self).buf)@ == final(old(self).buf)@,
            old(self).overflow ==> final(self).overflow,
            old(self).bitcount == 0 && !final(self).overflow ==> final(self).bits() == old(self).bits()
                + bits::num_bits(v as int, 16),
            old(self).bitcount == 0 && !old(self).overflow ==> (final(self).overflow <==> old(
            self).bits().len() + 16 > 8 * old(self).buf@.len()),
            final(self).keeps(*old(self)),
    {
        reveal(OutputBitstream::wrote);
        let n: usize = self.buf.len();
        let ghost b0 = self.bits();
        let ghost s0 = *self;
        proof {
            if self.bitcount == 0 {
                assert(b0 =~= bits::to_bits(self.buf@.take(self.pos as int)));
            }
        }
        if n - self.pos < 2 {
            self.overflow = true;
            return;
        }
        let lo: u8 = (v % 256) as u8;
        let hi: u8 = (v / 256) as u8;
        self.write_byte(lo);
        let ghost s1 = *self;
        self.write_byte(hi);
        proof {
            lemma_overlaid(s0.buf@, s0.pos as int, seq![lo], seq![hi]);
            assert(seq![lo] + seq![hi] =~= seq![lo, hi]);
            lemma_keeps_trans(s0, s1, *self);
            lemma_split_bits(v as int, 8, 8);
            lemma2_to64();
            assert(b0 + bits::num_bits(v as int % 256, 8) + bits::num_bits(v as int / 256, 8)
                =~= b0 + (bits::num_bits(v as int % 256, 8) + bits::num_bits(v as int / 256, 8)));
        }
    }

    /// Write a 32-bit little-endian value directly to the output, in front of the buffered
    /// bits; nothing is written where it does not fit.
    pub fn write_le32(&mut self, v: u32)
        requires
            old(self).wf(),
        ensures
            final(self).wf(),
            final(self).bitcount == old(self).bitcount,
            final(self).wrote(
                *old(self),
                seq![
                    (v % 256) as u8,
                    (v / 256 % 256) as u8,
                    (v / 65536 % 256) as u8,
                    (v / 0x100_0000) as u8,
                ],
            ),
            final(self).buf@.len() == old(self).buf@.len(),
            final(final(self).buf)@ == final(old(self).buf)@,
            old(self).overflow ==> final(self).overflow,
            old(self).bitcount == 0 && !final(self).overflow ==> final(self).bits() == old(self).bits()
                + bits::num_bits(v as int, 32),
            old(self).bitcount == 0 && !old(self).overflow ==> (final(self).overflow <==> old(
            self).bits().len() + 32 > 8 * old(self).buf@.len()),
            final(self).keeps(*old(self)),
    {
        reveal(OutputBitstream::wrote);
        let n: usize = self.buf.len();
        let ghost b0 = self.bits();
        let ghost s0 = *self;
        proof {
            if self.bitcount == 0 {
                assert(b0 =~= bits::to_bits(self.buf@.take(self.pos as int)));
            }
        }
        if n - self.pos < 4 {
            self.overflow = true;
            return;
        }
        let lo: u16 = (v % 65536) as u16;
        let hi: u16 = (v / 65536) as u16;
        self.write_le16(lo);
        let ghost s1 = *self;
        self.write_le16(hi);
        proof {
            let a = seq![(lo % 256) as u8, (lo / 256) as u8];
            let b = seq![(hi % 256) as u8, (hi / 256) as u8];
            lemma_overlaid(s0.buf@, s0.pos as int, a, b);
            assert(v % 65536 % 256 == v % 256);
            assert(v % 65536 / 256 == v / 256 % 256);
            assert(v / 65536 / 256 == v / 0x100_0000);
            assert(a + b =~= seq![
                (v % 256) as u8,
                (v / 256 % 256) as u8,
                (v / 65536 % 256) as u8,
                (v / 0x100_0000) as u8,
            ]);
            lemma_keeps_trans(s0, s1, *self);
            lemma_split_bits(v as int, 16, 16);
            lemma2_to64();
            assert(b0 + bits::num_bits(v as int % 65536, 16) + bits::num_bits(v as int / 65536, 16)
                =~= b0 + (bits::num_bits(v as int % 65536, 16) + bits::num_bits(
                v as int / 65536,
                16,
            )));
        }
    }

    /// Write a part of a slice of bytes directly to the output, in front of the buffered
    /// bits; nothing is written where it does not fit.
    pub fn write_bytes(&mut self, data: &[u8], from: usize, len: usize)
        requires
            old(self).wf(),
            from + len <= data@.len(),
        ensures
            final(self).wf(),
            final(self).bitcount == old(self).bitcount,
            final(self).wrote(*old(self), data@.subrange(from as int, from + len)),
            final(self).buf@.len() == old(self).buf@.len(),
            final(final(self).buf)@ == final(old(self).buf)@,
            old(self).overflow ==> final(self).overflow,
            old(self).bitcount == 0 && !final(self).overflow ==> final(self).bits() == old(self).bits()
                + bits::to_bits(data@.subrange(from as int, from + len)),
            old(self).bitcount == 0 && !old(self).overflow ==> (final(self).overflow <==> old(
            self).bits().len() + 8 * len > 8 * old(self).buf@.len()),
            final(self).keeps(*old(self)),
    {
        reveal(OutputBitstream::wrote);
        let n: usize = self.buf.len();
        let dn: usize = data.len();
        let ghost fin = final(self.buf)@;
        let ghost o = *self;
        let ghost p0 = self.pos as int;
        proof {
            if self.bitcount == 0 {
                assert(self.bits() =~= bits::to_bits(self.buf@.take(p0)));
            }
        }
        if len > n - self.pos {
            self.overflow = true;
            return;
        }
        let mut i: usize = 0;
        proof {
            assert(self.buf@ =~= overlaid(
                o.buf@,
                p0,
                data@.subrange(from as int, from as int),
            ));
        }
        while i < len
            invariant
                i <= len,
                dn == data@.len(),
                from + len <= dn,
                o == *old(self),
                o.wf(),
                p0 == o.pos,
                p0 + len <= n,
                n == o.buf@.len(),
                n == self.buf@.len(),
                self.pos == p0 + i,
                final(self.buf)@ == fin,
                fin == final(old(self).buf)@,
                self.overflow == o.overflow,
                self.bitbuf == o.bitbuf,
                self.bitcount == o.bitcount,
                self.buf@ == overlaid(o.buf@, p0, data@.subrange(from as int, from + i)),
            decreases len - i,
        {
            let ghost d = data@.subrange(from as int, from + i);
            let b: u8 = data[from + i];
            self.buf[self.pos] = b;
            self.pos = self.pos + 1;
            i = i + 1;
            proof {
                assert(data@.subrange(from as int, from + i) =~= d.push(b));
                assert(self.buf@ =~= overlaid(o.buf@, p0, d.push(b)));
            }
        }
        proof {
            let d = data@.subrange(from as int, from + len);
            assert(self.buf@.take(p0) =~= o.buf@.take(p0));
            assert(self.buf@.take(p0 + len) =~= o.buf@.take(p0) + d);
            lemma_concat_bits(o.buf@.take(p0), d);
            if self.bitcount == 0 {
                assert(self.bits() =~= bits::to_bits(self.buf@.take(p0 + len)));
            }
        }
    }

    /// Remaining capacity in the output buffer.
    pub fn remaining(&self) -> (r: usize)
        requires
            self.wf(),
        ensures
            r == self.size() - self.pos,
    {
        self.buf.len() - self.pos
    }

    /// Position beyond which eight bytes cannot be written at once.
    pub fn fast_end(&self) -> (r: usize)
        ensures
            r == if self.size() >= 7 {
                self.size() - 7
            } else {
                0
            },
    {
        let n: usize = self.buf.len();
        if n >= 7 {
            n - 7
        } else {
            0
        }
    }
}

/// Bytes with other bytes in place of those from `pos` on.
pub open spec fn overlaid(buf: Seq<u8>, pos: int, d: Seq<u8>) -> Seq<u8> {
    buf.take(pos) + d + buf.skip(pos + d.len())
}

/// Two parts, one behind the other.
proof fn lemma_overlaid(buf: Seq<u8>, pos: int, a: Seq<u8>, b: Seq<u8>)
    requires
        0 <= pos,
        pos + a.len() + b.len() <= buf.len(),
    ensures
        overlaid(overlaid(buf, pos, a), pos + a.len(), b) == overlaid(buf, pos, a + b),
{
    assert(overlaid(overlaid(buf, pos, a), pos + a.len(), b) =~= overlaid(buf, pos, a + b));
}

/// What stays twice stays.
pub proof fn lemma_keeps_trans(
    a: OutputBitstream<'_>,
    b: OutputBitstream<'_>,
    c: OutputBitstream<'_>,
)
    requires
        b.keeps(a),
        c.keeps(b),
        b.pos <= b.buf@.len(),
        b.buf@.len() == c.buf@.len(),
    ensures
        c.keeps(a),
{
    assert(c.buf@.take(a.pos as int) =~= c.buf@.take(b.pos as int).take(a.pos as int));
    assert(b.buf@.take(a.pos as int) =~= b.buf@.take(b.pos as int).take(a.pos as int));
}

/// Bits of the low and of the high part of a number.
pub proof fn lemma_split_bits(x: int, a: nat, b: nat)
    requires
        0 <= x,
    ensures
        bits::num_bits(x, a + b) == bits::num_bits(x % (pow2(a) as int), a) + bits::num_bits(
            x / (pow2(a) as int),
            b,
        ),
{
    lemma_pow2_pos(a);
    let m = pow2(a) as int;
    assert forall|i: int| 0 <= i < a + b implies #[trigger] bits::num_bit(x, i as nat) == if i < a {
        bits::num_bit(x % m, i as nat)
    } else {
        bits::num_bit(x / m, (i - a) as nat)
    } by {
        if i < a {
            let q = pow2(i as nat) as int;
            let r = pow2((a - i) as nat) as int;
            lemma_pow2_pos(i as nat);
            lemma_pow2_pos((a - i) as nat);
            lemma_pow2_adds(i as nat, (a - i) as nat);
            lemma_pow2_unfold((a - i) as nat);
            let h = pow2((a - i - 1) as nat) as int;
            // (x % m) / q == (x / q) % r, and r is even
            vstd::arithmetic::div_mod::lemma_mod_breakdown(x, q, r);
            assert(x % (q * r) == q * ((x / q) % r) + x % q);
            assert((q * ((x / q) % r) + x % q) / q == (x / q) % r) by {
                vstd::arithmetic::div_mod::lemma_mod_bound(x, q);
                vstd::arithmetic::div_mod::lemma_fundamental_div_mod_converse(
                    x % m,
                    q,
                    (x / q) % r,
                    x % q,
                );
                vstd::arithmetic::mul::lemma_mul_is_commutative(q, (x / q) % r);
            }
            vstd::arithmetic::div_mod::lemma_mod_mod(x / q, 2, h);
        } else {
            let k = (i - a) as nat;
            lemma_pow2_adds(a, k);
            lemma_pow2_pos(k);
            vstd::arithmetic::div_mod::lemma_div_denominator(x, m, pow2(k) as int);
        }
    }
    assert(bits::num_bits(x, a + b) =~= bits::num_bits(x % m, a) + bits::num_bits(x / m, b));
}

/// Adding a number above the buffered bits appends its bits.
proof fn lemma_add_bits(data: Seq<u8>, x: int, k: nat, v: int, n: nat)
    requires
        0 <= x < pow2(k),
        0 <= v < pow2(n),
    ensures
        x + v * pow2(k) < pow2(k + n),
        joined(data, x + v * pow2(k), k + n) == joined(data, x, k) + bits::num_bits(v, n),
{
    let m = pow2(k) as int;
    let y = x + v * m;
    lemma_pow2_adds(k, n);
    assert(y < m * pow2(n)) by (nonlinear_arith)
        requires
            y == x + v * m,
            x < m,
            v + 1 <= pow2(n),
            m > 0,
    ;
    assert(0 <= y) by (nonlinear_arith)
        requires
            y == x + v * m,
            x >= 0,
            v >= 0,
            m >= 0,
    ;
    vstd::arithmetic::div_mod::lemma_fundamental_div_mod_converse(y, m, v, x);
    lemma_split_bits(y, k, n);
    assert(joined(data, y, k + n) =~= joined(data, x, k) + bits::num_bits(v, n));
}

/// A byte behind a byte sequence adds its eight bits.
pub proof fn lemma_push_byte(data: Seq<u8>, b: u8)
    ensures
        bits::to_bits(data.push(b)) == bits::to_bits(data) + bits::num_bits(b as int, 8),
{
    let s = bits::to_bits(data.push(b));
    let t = bits::to_bits(data) + bits::num_bits(b as int, 8);
    assert forall|i: int| 0 <= i < s.len() implies s[i] == t[i] by {
        if i < 8 * data.len() {
            assert(data.push(b)[i / 8] == data[i / 8]);
        } else {
            assert(i / 8 == data.len() && i % 8 == i - 8 * data.len());
        }
    }
    assert(s =~= t);
}

/// Bytes behind bytes add their bits.
proof fn lemma_concat_bits(a: Seq<u8>, b: Seq<u8>)
    ensures
        bits::to_bits(a + b) == bits::to_bits(a) + bits::to_bits(b),
{
    let s = bits::to_bits(a + b);
    let t = bits::to_bits(a) + bits::to_bits(b);
    assert forall|i: int| 0 <= i < s.len() implies s[i] == t[i] by {
        if i < 8 * a.len() {
            assert((a + b)[i / 8] == a[i / 8]);
        } else {
            let j = i - 8 * a.len();
            assert(i / 8 == a.len() + j / 8 && i % 8 == j % 8);
            assert((a + b)[i / 8] == b[j / 8]);
        }
    }
    assert(s =~= t);
}

/// Moving the low byte of the bit buffer to the output keeps all bits.
proof fn lemma_flush_byte(data: Seq<u8>, x: int, k: nat)
    requires
        0 <= x < pow2(k),
        k >= 8,
    ensures
        joined(data.push((x % 256) as u8), x / 256, (k - 8) as nat) == joined(data, x, k),
        x / 256 < pow2((k - 8) as nat),
{
    lemma2_to64();
    lemma_push_byte(data, (x % 256) as u8);
    lemma_split_bits(x, 8, (k - 8) as nat);
    assert(8 + (k - 8) as nat == k);
    lemma_pow2_adds(8, (k - 8) as nat);
    assert(joined(data.push((x % 256) as u8), x / 256, (k - 8) as nat) =~= joined(data, x, k));
}

} // verus!
