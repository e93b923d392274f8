//! The output buffer of a streaming decompressor.

use crate::checksum::adler32;
use crate::checksum::adler32::adler32;
use crate::checksum::crc32;
use crate::checksum::crc32::crc32;
use crate::decompress::decode::fastloop_match_copy;
use crate::decompress::phases;
use crate::stream;
use vstd::prelude::*;
use vstd::slice::slice_subrange;

verus! {

/// Minimum lookback required for match references (32 KiB window).
pub const LOOKBACK_SIZE: usize = 32768;

/// What a DEFLATE stream is wrapped in.
#[derive(Debug, Clone, Copy, PartialEq, Eq, Structural)]
pub enum WrapperFormat {
    /// Nothing.
    Raw,
    /// A zlib header and footer.
    Zlib,
    /// A gzip header and footer.
    Gzip,
}

/// The checksum that a format keeps of the output.
pub open spec fn sum_of(format: WrapperFormat, out: Seq<u8>) -> int {
    match format {
        WrapperFormat::Raw => 0,
        WrapperFormat::Zlib => adler32::adler32_spec(1, out),
        WrapperFormat::Gzip => crc32::crc32_spec(0, out) as int,
    }
}

/// The last output bytes: 32 KiB that matches may reach back to, and those that have
/// not been consumed, up to `capacity` of them.
pub struct Window {
    pub buffer: Vec<u8>,
    pub capacity: usize,
    /// Where the output ends.
    pub write_pos: usize,
    /// Where the output begins that has not been consumed.
    pub read_pos: usize,
    pub format: WrapperFormat,
    /// Checksum of the output up to `checksum_watermark`.
    pub checksum: u32,
    /// The number of bytes that have been checksummed.
    pub total_output: u64,
    pub checksum_watermark: usize,
    /// How many bytes before `write_pos` are output.
    pub filled: usize,
    /// All output.
    pub all: Ghost<Seq<u8>>,
}

impl Window {
    /// All output.
    pub open spec fn out(&self) -> Seq<u8> {
        self.all@
    }

    /// How much of it has been checksummed.
    pub open spec fn summed(&self) -> int {
        self.out().len() - (self.write_pos - self.checksum_watermark)
    }

    /// The output that has not been consumed.
    pub open spec fn unread(&self) -> Seq<u8> {
        self.all@.skip(self.all@.len() - (self.write_pos - self.read_pos))
    }

    /// The buffer holds the end of all output.
    pub open spec fn wf(&self) -> bool {
        &&& self.capacity > 0
        &&& self.buffer@.len() == LOOKBACK_SIZE + self.capacity
        &&& LOOKBACK_SIZE <= self.read_pos <= self.write_pos <= self.buffer@.len()
        &&& self.write_pos - self.read_pos <= self.filled <= self.write_pos
        &&& self.filled <= self.all@.len()
        &&& self.filled == self.all@.len() || self.filled >= LOOKBACK_SIZE
        &&& forall|i: int|
            self.write_pos - self.filled <= i < self.write_pos ==> #[trigger] self.buffer@[i]
                == self.all@[self.all@.len() - self.write_pos + i]
        &&& self.format != WrapperFormat::Raw ==> {
            &&& self.write_pos - self.filled <= self.checksum_watermark <= self.write_pos
            &&& 0 <= self.summed()
            &&& self.checksum == sum_of(self.format, self.out().take(self.summed()))
            &&& self.total_output == self.summed() % 0x1_0000_0000_0000_0000
        }
    }

    /// Nothing has been written.
    pub open spec fn fresh(&self) -> bool {
        &&& self.all@.len() == 0
        &&& self.read_pos == LOOKBACK_SIZE
        &&& self.write_pos == LOOKBACK_SIZE
    }

    /// Nothing that is set up once has changed.
    pub open spec fn same_setup(&self, o: Self) -> bool {
        &&& self.capacity == o.capacity
        &&& self.format == o.format
    }

    /// An empty window.
    pub fn new(capacity: usize, format: WrapperFormat) -> (r: Self)
        requires
            0 < capacity,
            LOOKBACK_SIZE + capacity <= usize::MAX,
        ensures
            r.wf(),
            r.fresh(),
            r.capacity == capacity,
            r.format == format,
    {
        let buffer: Vec<u8> = vec![0u8; LOOKBACK_SIZE + capacity];
        proof {
            lemma_no_sum(format);
            assert(Seq::<u8>::empty().take(0) =~= Seq::empty());
        }
        Window {
            buffer,
            capacity,
            write_pos: LOOKBACK_SIZE,
            read_pos: LOOKBACK_SIZE,
            format,
            checksum: first_sum(format),
            total_output: 0,
            checksum_watermark: LOOKBACK_SIZE,
            filled: 0,
            all: Ghost(Seq::empty()),
        }
    }

    /// Start over.
    pub fn reset(&mut self)
        requires
            old(self).wf(),
        ensures
            final(self).wf(),
            final(self).fresh(),
            final(self).capacity == old(self).capacity,
            final(self).format == old(self).format,
    {
        self.write_pos = LOOKBACK_SIZE;
        self.read_pos = LOOKBACK_SIZE;
        self.checksum = first_sum(self.format);
        self.total_output = 0;
        self.checksum_watermark = LOOKBACK_SIZE;
        self.filled = 0;
        proof {
            self.all@ = Seq::empty();
            lemma_no_sum(self.format);
            assert(Seq::<u8>::empty().take(0) =~= Seq::empty());
        }
    }

    /// How many bytes can be written.
    pub fn output_space(&self) -> (r: usize)
        requires
            self.wf(),
        ensures
            r == self.buffer@.len() - self.write_pos,
    {
        self.buffer.len() - self.write_pos
    }

    /// How many bytes have not been consumed.
    pub fn peek_len(&self) -> (r: usize)
        requires
            self.wf(),
        ensures
            r == self.write_pos - self.read_pos,
            r == self.unread().len(),
    {
        self.write_pos - self.read_pos
    }

    /// The bytes that have not been consumed.
    pub fn peek(&self) -> (r: &[u8])
        requires
            self.wf(),
        ensures
            r@ == self.unread(),
    {
        let r: &[u8] = slice_subrange(self.buffer.as_slice(), self.read_pos, self.write_pos);
        assert(r@ =~= self.unread());
        r
    }

    /// Mark `n` bytes as consumed.
    pub fn advance(&mut self, n: usize)
        requires
            old(self).wf(),
            n <= old(self).unread().len(),
        ensures
            final(self).wf(),
            final(self).same_setup(*old(self)),
            final(self).all == old(self).all,
            final(self).unread() == old(self).unread().skip(n as int),
    {
        self.read_pos = self.read_pos + n;
        assert(self.unread() =~= old(self).unread().skip(n as int));
    }

    /// Write a byte.
    pub fn put(&mut self, byte: u8)
        requires
            old(self).wf(),
            old(self).write_pos < old(self).buffer@.len(),
        ensures
            final(self).wf(),
            final(self).same_setup(*old(self)),
            final(self).all@ == old(self).all@.push(byte),
            final(self).read_pos == old(self).read_pos,
            final(self).write_pos == old(self).write_pos + 1,
    {
        let n: usize = self.buffer.len();
        self.buffer.set(self.write_pos, byte);
        self.write_pos = self.write_pos + 1;
        self.filled = self.filled + 1;
        proof {
            let a = old(self).all@;
            self.all@ = a.push(byte);
            if self.format != WrapperFormat::Raw {
                assert(self.out().take(self.summed()) =~= old(self).out().take(
                    old(self).summed(),
                ));
            }
        }
    }

    /// The output goes back that far.
    pub fn reaches(&self, offset: usize) -> (r: bool)
        requires
            self.wf(),
            offset <= LOOKBACK_SIZE,
        ensures
            r == (offset <= self.all@.len()),
    {
        offset <= self.filled
    }

    /// Write a match.
    pub fn put_match(&mut self, offset: usize, length: usize)
        requires
            old(self).wf(),
            1 <= offset <= LOOKBACK_SIZE,
            offset <= old(self).all@.len(),
            old(self).write_pos + length <= old(self).buffer@.len(),
        ensures
            final(self).wf(),
            final(self).same_setup(*old(self)),
            final(self).all@ == stream::copy_match(old(self).all@, offset as int, length as nat),
            final(self).read_pos == old(self).read_pos,
            final(self).write_pos == old(self).write_pos + length,
    {
        let n: usize = self.buffer.len();
        let at: usize = self.write_pos;
        let ghost a = self.all@;
        let ghost k = self.filled as int;
        let ghost junk = self.buffer@.take(at - k);
        let ghost head = a.take(a.len() - k);
        let ghost tail = self.buffer@.subrange(at - k, at as int);
        fastloop_match_copy(self.buffer.as_mut_slice(), at, offset, length);
        self.write_pos = at + length;
        self.filled = self.filled + length;
        proof {
            let c = stream::copy_match(a, offset as int, length as nat);
            self.all@ = c;
            phases::lemma_copy_len(a, offset as int, length as nat);
            phases::lemma_copy_before(head, tail, offset as int, length as nat);
            phases::lemma_copy_before(junk, tail, offset as int, length as nat);
            assert(head + tail =~= a);
            assert(junk + tail =~= old(self).buffer@.take(at as int));
            let d = stream::copy_match(tail, offset as int, length as nat);
            phases::lemma_copy_len(tail, offset as int, length as nat);
            assert(c == head + d);
            assert(self.buffer@.take(at + length) == junk + d);
            assert forall|i: int|
                self.write_pos - self.filled <= i < self.write_pos implies #[trigger] self.buffer@[i]
                == c[c.len() - self.write_pos + i] by {
                assert(self.buffer@.take(at + length)[i] == self.buffer@[i]);
                assert((junk + d)[i] == d[i - (at - k)]);
            }
            if self.format != WrapperFormat::Raw {
                assert(self.out().take(self.summed()) =~= old(self).out().take(
                    old(self).summed(),
                ));
            }
        }
    }

    /// Update the checksum for all output written since it was updated last.
    pub fn flush_checksum(&mut self)
        requires
            old(self).wf(),
        ensures
            final(self).wf(),
            final(self).same_setup(*old(self)),
            final(self).all == old(self).all,
            final(self).buffer@ == old(self).buffer@,
            final(self).write_pos == old(self).write_pos,
            final(self).read_pos == old(self).read_pos,
            final(self).format != WrapperFormat::Raw ==> final(self).checksum_watermark
                == final(self).write_pos,
    {
        if self.format == WrapperFormat::Raw || self.checksum_watermark >= self.write_pos {
            return;
        }
        let n: usize = self.write_pos - self.checksum_watermark;
        let data: &[u8] = slice_subrange(
            self.buffer.as_slice(),
            self.checksum_watermark,
            self.write_pos,
        );
        proof {
            let o = self.out();
            let s = self.summed();
            assert(o.take(s) + data@ =~= o.take(o.len() as int));
            match self.format {
                WrapperFormat::Zlib => {
                    adler32::law_adler32_incremental(1, o.take(s), data@, self.checksum);
                },
                WrapperFormat::Gzip => {
                    crc32::law_crc32_incremental(0, o.take(s), data@);
                },
                WrapperFormat::Raw => {},
            }
        }
        match self.format {
            WrapperFormat::Zlib => {
                self.checksum = adler32(self.checksum, data);
            },
            WrapperFormat::Gzip => {
                self.checksum = crc32(self.checksum, data);
            },
            WrapperFormat::Raw => {},
        }
        self.total_output = self.total_output.wrapping_add(n as u64);
        self.checksum_watermark = self.write_pos;
    }

    /// Move the last 32 KiB that have been consumed, and what has not been, to the
    /// front of the buffer.
    pub fn compact(&mut self)
        requires
            old(self).wf(),
        ensures
            final(self).wf(),
            final(self).same_setup(*old(self)),
            final(self).all == old(self).all,
            final(self).read_pos == LOOKBACK_SIZE,
            final(self).write_pos - final(self).read_pos == old(self).write_pos - old(
                self,
            ).read_pos,
    {
        if self.read_pos <= LOOKBACK_SIZE {
            return;
        }
        self.flush_checksum();
        let from: usize = self.read_pos - LOOKBACK_SIZE;
        let n: usize = self.write_pos - from;
        let ghost before = *self;
        let mut i: usize = 0;
        while i < n
            invariant
                before.wf(),
                from == before.read_pos - LOOKBACK_SIZE,
                n == before.write_pos - from,
                i <= n,
                self.buffer@.len() == before.buffer@.len(),
                self.capacity == before.capacity,
                self.format == before.format,
                self.all == before.all,
                self.filled == before.filled,
                self.checksum == before.checksum,
                self.total_output == before.total_output,
                forall|j: int| 0 <= j < i ==> #[trigger] self.buffer@[j] == before.buffer@[from + j],
                forall|j: int|
                    i <= j < before.buffer@.len() ==> #[trigger] self.buffer@[j]
                        == before.buffer@[j],
            decreases n - i,
        {
            let byte: u8 = self.buffer[from + i];
            self.buffer.set(i, byte);
            i = i + 1;
        }
        self.read_pos = LOOKBACK_SIZE;
        self.write_pos = n;
        self.checksum_watermark = n;
        if self.filled > n {
            self.filled = n;
        }
        proof {
            assert forall|j: int| n - self.filled <= j < n implies #[trigger] self.buffer@[j]
                == self.all@[self.all@.len() - n + j] by {
                assert(before.buffer@[from + j] == before.all@[before.all@.len() - before.write_pos
                    + (from + j)]);
            }
        }
    }
}

/// The checksum of no output.
pub fn first_sum(format: WrapperFormat) -> (r: u32)
    ensures
        r == sum_of(format, Seq::empty()),
{
    proof {
        lemma_no_sum(format);
    }
    match format {
        WrapperFormat::Zlib => 1,
        _ => 0,
    }
}

proof fn lemma_no_sum(format: WrapperFormat)
    ensures
        sum_of(format, Seq::empty()) == if format == WrapperFormat::Zlib {
            1int
        } else {
            0
        },
{
    assert(!(!0u32) == 0u32) by (bit_vector);
}

} // verus!
