//! Compressing chunks on their own and putting them together.
//!
//! The chunks do not depend on each other, so they may be compressed at the same
//! time: [`plan_chunks`] says what they are, [`compress_chunk`] compresses one of
//! them, and [`assemble_gzip`] writes a gzip member that holds all of them.

use crate::arith::min_usize;
use crate::bits;
use crate::checksum::crc32;
use crate::checksum::crc32::{crc32, crc32_combine};
use crate::compress::compressor;
use crate::compress::compressor::Compressor;
use crate::compress::level::CompressionLevel;
use crate::compress::pack;
use crate::compress::progress;
use crate::compress::stored;
use crate::compress::wrap;
use crate::compress::wrap::{gzip_size, put_gzip_header, put_le32};
use crate::error::CompressionError;
use crate::fast_bytes;
use crate::stop::Stop;
use vstd::prelude::*;
use vstd::slice::slice_subrange;

verus! {

/// Inputs shorter than this are not split.
pub const MIN_PARALLEL_SIZE: usize = 32768;

/// No chunk but the last is shorter than this.
pub const MIN_CHUNK_SIZE: usize = 16384;

/// A chunk that has been compressed.
pub struct Chunk {
    /// The compressed data.
    pub data: Vec<u8>,
    /// CRC-32 of the uncompressed data.
    pub crc: u32,
    /// The number of uncompressed bytes.
    pub len: usize,
}

impl Chunk {
    /// The chunk stands for the input from `start` to `end`.
    pub open spec fn holds(&self, input: Seq<u8>, start: int, end: int) -> bool {
        &&& 0 <= start < end <= input.len()
        &&& self.len == end - start
        &&& self.crc == crc32::crc32_spec(0, input.subrange(start, end))
        &&& self.data@.len() <= progress::bound(end - start) + if end < input.len() {
            5int
        } else {
            0
        }
        &&& pack::packs(self.data@, input.take(start), input.take(end), end == input.len())
        &&& end < input.len() ==> pack::packs_whole(
            self.data@,
            input.take(start),
            input.take(end),
        )
    }
}

impl Chunk {
    /// The chunk takes no more room than blocks of the minimum length do.
    pub open spec fn tight(&self, len: int, start: int, end: int) -> bool {
        &&& self.data@.len() <= compressor::chunk_room(end - start, end == len)
        &&& end < len ==> end - start >= 5000
    }

    /// The data is what a compressor of this level writes of the input from `start` to
    /// `end`, where matches may reach back into what comes before.
    pub open spec fn made_at(
        &self,
        level: CompressionLevel,
        input: Seq<u8>,
        start: int,
        end: int,
    ) -> bool {
        compressor::level_writes(
            level,
            progress::bound(end - start) + 5,
            self.data@,
            input.take(end),
            start,
            end == input.len(),
        )
    }
}

/// Where chunk `k` begins: at the beginning, or where the one before it ends.
pub open spec fn chunk_start(ends: Seq<usize>, k: int) -> int {
    if k <= 0 {
        0
    } else {
        ends[k - 1] as int
    }
}

/// Where chunks end: each is longer than nothing, and the last one ends with the
/// data.
pub open spec fn is_plan(ends: Seq<usize>, len: int) -> bool {
    &&& ends.len() > 0
    &&& ends.last() == len
    &&& forall|k: int| 0 <= k < ends.len() ==> #[trigger] chunk_start(ends, k) < ends[k]
    &&& forall|k: int| 0 <= k < ends.len() - 1 ==> #[trigger] ends[k] < len
}

/// The number of chunks that an input is split into at most.
pub open spec fn num_chunks(len: int, num_threads: int) -> int {
    let most = if num_threads < len / 16384 {
        num_threads
    } else {
        len / 16384
    };
    if most < 1 {
        1
    } else {
        most
    }
}

/// All chunks but the last have the same size: the bytes divided by the number of chunks,
/// rounded up.
pub open spec fn evenly(ends: Seq<usize>, len: int, num_threads: int) -> bool {
    let n = num_chunks(len, num_threads);
    let size = (len + n - 1) / n;
    forall|k: int|
        0 <= k < ends.len() ==> #[trigger] ends[k] == if (k + 1) * size < len {
            (k + 1) * size
        } else {
            len
        }
}

/// The chunks are those of the input, one for each thread, as compressors of this level
/// write them.
pub open spec fn chunks_at(
    level: CompressionLevel,
    input: Seq<u8>,
    num_threads: int,
    ends: Seq<usize>,
    chunks: Seq<Chunk>,
) -> bool {
    &&& chunks_hold(input, ends, chunks)
    &&& evenly(ends, input.len() as int, num_threads)
    &&& forall|k: int|
        0 <= k < chunks.len() ==> (#[trigger] chunks[k]).made_at(
            level,
            input,
            chunk_start(ends, k),
            ends[k] as int,
        )
}

/// The bytes are those of chunks of the input, one for each thread, that compressors of
/// this level write.
pub open spec fn split_evenly(
    body: Seq<u8>,
    level: CompressionLevel,
    input: Seq<u8>,
    num_threads: int,
) -> bool {
    exists|ends: Seq<usize>, chunks: Seq<Chunk>| #[trigger]
        chunks_at(level, input, num_threads, ends, chunks) && body == joined(
            chunks,
            chunks.len() as int,
        )
}

/// The bytes of such chunks, with the header and the footer, are more than `room`.
pub open spec fn outgrown(
    level: CompressionLevel,
    input: Seq<u8>,
    num_threads: int,
    room: int,
) -> bool {
    exists|ends: Seq<usize>, chunks: Seq<Chunk>| #[trigger]
        chunks_at(level, input, num_threads, ends, chunks) && joined(
            chunks,
            chunks.len() as int,
        ).len() + 18 > room
}

/// Split `len` bytes into equal-sized chunks, one per thread, but into no more than
/// one for every 16 KiB; returns where each of them ends.
pub fn plan_chunks(len: usize, num_threads: usize) -> (ends: Vec<usize>)
    requires
        0 < len,
    ensures
        is_plan(ends@, len as int),
        ends@.len() <= num_chunks(len as int, num_threads as int),
        evenly(ends@, len as int, num_threads as int),
{
    let most: usize = min_usize(num_threads, len / MIN_CHUNK_SIZE);
    let n: usize = if most < 1 {
        1
    } else {
        most
    };
    let size: usize = (len - 1) / n + 1;
    proof {
        assert((len + n - 1) / n as int == (len - 1) / n as int + 1) by (nonlinear_arith)
            requires
                n >= 1,
                len >= 1,
        ;
        assert(n * size >= len) by (nonlinear_arith)
            requires
                n >= 1,
                len >= 1,
                size == (len - 1) / n as int + 1,
        ;
    }
    let mut ends: Vec<usize> = Vec::new();
    let mut start: usize = 0;
    while start < len
        invariant
            0 < len,
            1 <= size <= len,
            n >= 1,
            n * size >= len,
            start <= len,
            start == chunk_start(ends@, ends@.len() as int),
            start < len ==> start == ends@.len() * size,
            start == len ==> ends@.len() > 0,
            ends@.len() <= n,
            forall|k: int| 0 <= k < ends@.len() ==> #[trigger] chunk_start(ends@, k) < ends@[k],
            forall|k: int| 0 <= k < ends@.len() - 1 ==> #[trigger] ends@[k] < len,
            forall|k: int|
                0 <= k < ends@.len() ==> #[trigger] ends@[k] == if (k + 1) * size < len {
                    (k + 1) * size
                } else {
                    len as int
                },
        decreases len - start,
    {
        let ghost k0 = ends@.len() as int;
        let ghost e0 = ends@;
        let end: usize = start + min_usize(size, len - start);
        ends.push(end);
        proof {
            assert((k0 + 1) * size == k0 * size + size) by (nonlinear_arith);
            assert(k0 < n) by (nonlinear_arith)
                requires
                    k0 * size < len,
                    n * size >= len,
                    size >= 1,
            ;
            assert forall|k: int| 0 <= k < ends@.len() implies #[trigger] chunk_start(ends@, k)
                < ends@[k] by {
                assert(chunk_start(ends@, k) == chunk_start(e0, k));
            }
        }
        start = end;
    }
    ends
}

/// Compress the chunk of the input from `data_start` to `data_end`; matches may
/// reach back into what comes before it.
pub fn compress_chunk<S: Stop>(
    level: CompressionLevel,
    input: &[u8],
    data_start: usize,
    data_end: usize,
    stop: &S,
) -> (r: Result<Chunk, CompressionError>)
    requires
        level.wf(),
        data_start < data_end <= input@.len(),
        progress::bound(data_end - data_start) + 5 <= usize::MAX,
    ensures
        r matches Ok(chunk) ==> {
            &&& chunk.holds(input@, data_start as int, data_end as int)
            &&& chunk.made_at(level, input@, data_start as int, data_end as int)
            &&& compressor::fills_blocks(level) && (data_end < input@.len() ==> data_end
                - data_start >= 5000) ==> chunk.tight(
                input@.len() as int,
                data_start as int,
                data_end as int,
            )
        },
        r matches Err(e) ==> e is Stopped && !stop.never_stops(),
{
    let is_last: bool = data_end >= input.len();
    let crc: u32 = crc32(0, slice_subrange(input, data_start, data_end));
    let size: usize = Compressor::deflate_compress_bound(data_end - data_start) + 5;
    let mut c: Compressor = Compressor::new(level);
    let mut buf: Vec<u8> = vec![0u8; size];
    let r: Result<usize, CompressionError> = c.deflate_compress_chunk(
        slice_subrange(input, 0, data_end),
        data_start,
        is_last,
        buf.as_mut_slice(),
        stop,
    );
    match r {
        Ok(n) => {
            buf.truncate(n);
            proof {
                let all = input@.subrange(0, data_end as int);
                assert(all =~= input@.take(data_end as int));
                assert(all.take(data_start as int) =~= input@.take(data_start as int));
            }
            Ok(Chunk { data: buf, crc, len: data_end - data_start })
        },
        Err(e) => Err(e),
    }
}

/// The bytes of the first `k` chunks.
pub open spec fn joined(chunks: Seq<Chunk>, k: int) -> Seq<u8>
    decreases k,
{
    if k <= 0 {
        Seq::empty()
    } else {
        joined(chunks, k - 1) + chunks[k - 1].data@
    }
}

/// The chunks stand for the whole input, in the order of a plan.
pub open spec fn chunks_hold(input: Seq<u8>, ends: Seq<usize>, chunks: Seq<Chunk>) -> bool {
    &&& is_plan(ends, input.len() as int)
    &&& chunks.len() == ends.len()
    &&& forall|k: int|
        0 <= k < chunks.len() ==> (#[trigger] chunks[k]).holds(
            input,
            chunk_start(ends, k),
            ends[k] as int,
        )
}

/// The first chunks together hold the first part of the input.
proof fn lemma_joined(input: Seq<u8>, ends: Seq<usize>, chunks: Seq<Chunk>, k: int)
    requires
        chunks_hold(input, ends, chunks),
        1 <= k <= chunks.len(),
    ensures
        pack::packs(
            joined(chunks, k),
            Seq::empty(),
            input.take(chunk_start(ends, k)),
            k == chunks.len(),
        ),
        k < chunks.len() ==> pack::packs_whole(
            joined(chunks, k),
            Seq::empty(),
            input.take(chunk_start(ends, k)),
        ),
    decreases k,
{
    let c = chunks[k - 1];
    assert(c.holds(input, chunk_start(ends, k - 1), ends[k - 1] as int));
    if k == 1 {
        assert(joined(chunks, 0) =~= Seq::<u8>::empty());
        assert(joined(chunks, 1) =~= c.data@);
        assert(input.take(0) =~= Seq::<u8>::empty());
        assert(joined(chunks, k) == joined(chunks, k - 1) + c.data@);
    } else {
        lemma_joined(input, ends, chunks, k - 1);
        assert(ends[k - 2] < input.len());
        pack::law_packed_concat(
            joined(chunks, k - 1),
            c.data@,
            Seq::empty(),
            input.take(chunk_start(ends, k - 1)),
            input.take(ends[k - 1] as int),
            ends[k - 1] == input.len(),
        );
    }
    if k < chunks.len() {
        assert(ends[k - 1] < input.len());
    }
}

/// The chunks together take little more room than the input as a whole.
proof fn lemma_joined_len(input: Seq<u8>, ends: Seq<usize>, chunks: Seq<Chunk>, k: int)
    requires
        chunks_hold(input, ends, chunks),
        0 <= k <= chunks.len(),
    ensures
        joined(chunks, k).len() <= progress::bound(chunk_start(ends, k)) + 10 * k,
    decreases k,
{
    if k > 0 {
        lemma_joined_len(input, ends, chunks, k - 1);
        let a = chunk_start(ends, k - 1);
        let b = ends[k - 1] as int;
        assert(chunks[k - 1].holds(input, a, b));
        assert((a + 4999) / 5000 + (b - a + 4999) / 5000 <= (b + 4999) / 5000 + 1);
    }
}

/// Each chunk takes no more room than blocks of the minimum length do.
pub open spec fn all_tight(len: int, ends: Seq<usize>, chunks: Seq<Chunk>) -> bool {
    forall|k: int|
        0 <= k < chunks.len() ==> (#[trigger] chunks[k]).tight(
            len,
            chunk_start(ends, k),
            ends[k] as int,
        )
}

/// Such chunks together take no more room than the input as a whole, but for the empty
/// stored blocks between them.
proof fn lemma_joined_tight(input: Seq<u8>, ends: Seq<usize>, chunks: Seq<Chunk>, k: int)
    requires
        chunks_hold(input, ends, chunks),
        all_tight(input.len() as int, ends, chunks),
        0 <= k <= chunks.len(),
    ensures
        k < chunks.len() ==> joined(chunks, k).len() <= chunk_start(ends, k) + 5 * (chunk_start(
            ends,
            k,
        ) / 5000) + 5 * k,
        k == chunks.len() ==> joined(chunks, k).len() <= progress::bound(input.len() as int) + 5 * (
        k - 1),
    decreases k,
{
    if k > 0 {
        lemma_joined_tight(input, ends, chunks, k - 1);
        let a = chunk_start(ends, k - 1);
        let b = ends[k - 1] as int;
        assert(chunks[k - 1].holds(input, a, b));
        assert(chunks[k - 1].tight(input.len() as int, a, b));
        if k < chunks.len() {
            assert(b < input.len());
            assert(a / 5000 + (b - a) / 5000 <= b / 5000);
        } else {
            assert(a / 5000 + (b - a + 4999) / 5000 <= (b + 4999) / 5000);
        }
    }
}

/// A chunk that others follow is not short.
proof fn lemma_even_chunk(ends: Seq<usize>, len: int, num_threads: int, k: int)
    requires
        is_plan(ends, len),
        evenly(ends, len, num_threads),
        0 <= k < ends.len() - 1,
    ensures
        ends[k] - chunk_start(ends, k) >= 5000,
{
    let n = num_chunks(len, num_threads);
    let size = (len + n - 1) / n;
    assert(ends[k] < len);
    assert(ends[k] == (k + 1) * size);
    assert((k + 1) * size == k * size + size) by (nonlinear_arith);
    if k > 0 {
        assert(ends[k - 1] < len);
        assert(ends[k - 1] == (k - 1 + 1) * size);
    } else {
        assert(k * size == 0) by (nonlinear_arith)
            requires
                k == 0,
        ;
    }
    assert(chunk_start(ends, k) == k * size);
    assert(ends[0] < len);
    assert(ends[0] == (0 + 1) * size);
    assert(n * size >= len) by (nonlinear_arith)
        requires
            n >= 1,
            size == (len + n - 1) / n,
    ;
    if n > 1 {
        assert(16384 * n <= len);
        assert(size >= 16384) by (nonlinear_arith)
            requires
                n * size >= len,
                16384 * n <= len,
                n >= 1,
        ;
    }
}

/// Write a gzip member that holds all chunks: header, compressed data, footer.
pub fn assemble_gzip(
    input: &[u8],
    ends: &Vec<usize>,
    chunks: &Vec<Chunk>,
    output: &mut [u8],
) -> (r: Result<usize, CompressionError>)
    requires
        chunks_hold(input@, ends@, chunks@),
    ensures
        final(output)@.len() == old(output)@.len(),
        r == if joined(chunks@, chunks@.len() as int).len() + 18 <= old(output)@.len() {
            Ok::<usize, CompressionError>(
                (joined(chunks@, chunks@.len() as int).len() + 18) as usize,
            )
        } else {
            Err(CompressionError::InsufficientSpace)
        },
        r matches Ok(n) ==> wrap::holds_gzip(final(output)@.take(n as int), input@)
            && final(output)@.subrange(10, n - 8) == joined(chunks@, chunks@.len() as int),
        r matches Err(CompressionError::InsufficientSpace) ==> old(output)@.len() < progress::bound(
            input@.len() as int,
        ) + 18 + 10 * chunks@.len(),
        r matches Err(CompressionError::InsufficientSpace) ==> all_tight(
            input@.len() as int,
            ends@,
            chunks@,
        ) ==> old(output)@.len() < progress::bound(input@.len() as int) + 18 + 5 * chunks@.len(),
{
    let ghost h = input@;
    let size: usize = output.len();
    let ghost total = joined(chunks@, chunks@.len() as int).len() as int;
    proof {
        lemma_joined_len(h, ends@, chunks@, chunks@.len() as int);
        if all_tight(h.len() as int, ends@, chunks@) {
            lemma_joined_tight(h, ends@, chunks@, chunks@.len() as int);
        }
    }
    if size < 18 {
        return Err(CompressionError::InsufficientSpace);
    }
    put_gzip_header(output);
    let ghost head = output@;
    let mut pos: usize = 10;
    let mut crc: u32 = 0;
    let mut k: usize = 0;
    proof {
        assert(h.take(0) =~= Seq::<u8>::empty());
        let ones = !0u32;
        assert(!ones == 0u32) by (bit_vector)
            requires
                ones == !0u32,
        ;
        assert(output@.subrange(10, 10) =~= joined(chunks@, 0));
    }
    while k < chunks.len()
        invariant
            h == input@,
            chunks_hold(h, ends@, chunks@),
            k <= chunks@.len(),
            size == output@.len(),
            size == old(output)@.len(),
            total == joined(chunks@, chunks@.len() as int).len(),
            total <= progress::bound(h.len() as int) + 10 * chunks@.len(),
            all_tight(h.len() as int, ends@, chunks@) ==> total <= progress::bound(h.len() as int)
                + 5 * chunks@.len() - 5,
            18 <= size,
            pos + 8 <= size,
            pos == 10 + joined(chunks@, k as int).len(),
            output@.subrange(10, pos as int) == joined(chunks@, k as int),
            output@.take(10) == head.take(10),
            crc == crc32::crc32_spec(0, h.take(chunk_start(ends@, k as int))),
        decreases chunks@.len() - k,
    {
        let c: &Chunk = &chunks[k];
        let n: usize = c.data.len();
        proof {
            assert(chunks@[k as int].holds(h, chunk_start(ends@, k as int), ends@[k as int] as int));
            lemma_joined_grows(chunks@, k + 1, chunks@.len() as int);
        }
        if size - 8 - pos < n {
            return Err(CompressionError::InsufficientSpace);
        }
        let ghost o0 = output@;
        copy_into(output, pos, &c.data);
        crc = crc32_combine(crc, c.crc, c.len);
        proof {
            let a = chunk_start(ends@, k as int);
            let b = ends@[k as int] as int;
            assert(h.take(a) + h.subrange(a, b) =~= h.take(b));
            assert(output@.subrange(10, pos + n) =~= joined(chunks@, k + 1));
            assert(output@.take(10) =~= o0.take(10));
        }
        pos = pos + n;
        k = k + 1;
    }
    let ghost body = output@.subrange(10, pos as int);
    let ghost c = pos - 10;
    put_le32(output, pos, crc);
    let ghost mid2 = output@;
    put_le32(output, pos + 4, gzip_size(input.len()));
    proof {
        lemma_joined(h, ends@, chunks@, chunks@.len() as int);
        assert(h.take(h.len() as int) =~= h);
        let d = output@.take(c + 18);
        assert(d.subrange(10, 10 + c) =~= body);
        assert(output@.take(10) =~= head.take(10));
        assert(d[0] == head.take(10)[0] && d[1] == head.take(10)[1] && d[2] == head.take(10)[2]
            && d[3] == head.take(10)[3]);
        assert(fast_bytes::le32(d, 10 + c) == fast_bytes::le32(mid2, 10 + c));
        assert(fast_bytes::le32(d, 14 + c) == fast_bytes::le32(output@, 14 + c));
        assert(d.take(10) =~= head.take(10));
        assert(output@.subrange(10, pos as int) =~= body);
    }
    Ok(pos + 8)
}

proof fn lemma_joined_grows(chunks: Seq<Chunk>, a: int, b: int)
    requires
        0 <= a <= b,
    ensures
        joined(chunks, a).len() <= joined(chunks, b).len(),
    decreases b - a,
{
    if a < b {
        lemma_joined_grows(chunks, a, b - 1);
    }
}

/// Copy bytes to a place in the output.
fn copy_into(output: &mut [u8], pos: usize, data: &Vec<u8>)
    requires
        pos + data@.len() <= old(output)@.len(),
    ensures
        final(output)@.len() == old(output)@.len(),
        forall|i: int|
            0 <= i < final(output)@.len() ==> #[trigger] final(output)@[i] == if pos <= i < pos
                + data@.len() {
                data@[i - pos]
            } else {
                old(output)@[i]
            },
{
    let n: usize = data.len();
    let size: usize = output.len();
    let mut i: usize = 0;
    while i < n
        invariant
            n == data@.len(),
            i <= n,
            pos + n <= size,
            size == output@.len(),
            size == old(output)@.len(),
            forall|j: int|
                0 <= j < size ==> #[trigger] output@[j] == if pos <= j < pos + i {
                    data@[j - pos]
                } else {
                    old(output)@[j]
                },
        decreases n - i,
    {
        output[pos + i] = data[i];
        i = i + 1;
    }
}

impl Compressor {
    /// Compress data in gzip format as chunks that could be compressed at the same
    /// time, one per thread.
    ///
    /// The output should have room for
    /// [`gzip_compress_bound`](Self::gzip_compress_bound) and five bytes for each thread.
    /// That is shown to be enough at all levels but effort 28, and ten bytes for each chunk
    /// at every level.
    ///
    /// Each chunk may be matched against the 32 KiB before it. Falls back to
    /// [`gzip_compress`](Self::gzip_compress) for small inputs or if `num_threads` is
    /// at most one.
    pub fn gzip_compress_parallel<S: Stop>(
        &mut self,
        input: &[u8],
        output: &mut [u8],
        num_threads: usize,
        stop: S,
    ) -> (r: Result<usize, CompressionError>)
        requires
            old(self).wf(),
            input@.len() <= isize::MAX,
        ensures
            final(self).wf(),
            final(self).same_setup(*old(self)),
            final(self).incremental_pos == old(self).incremental_pos,
            final(output)@.len() == old(output)@.len(),
            r matches Ok(n) ==> {
                &&& n <= old(output)@.len()
                &&& wrap::holds_gzip(final(output)@.take(n as int), input@)
                &&& num_threads > 1 && input@.len() >= 32768 ==> split_evenly(
                    final(output)@.subrange(10, n - 8),
                    old(self).level,
                    input@,
                    num_threads as int,
                )
                &&& (num_threads <= 1 || input@.len() < 32768) && input@.len()
                    > old(self).max_passthrough_size ==> old(self).writes(
                    old(output)@.len() - 10,
                    final(output)@.subrange(10, n - 8),
                    input@,
                    0,
                    true,
                )
                &&& (num_threads <= 1 || input@.len() < 32768) && input@.len()
                    <= old(self).max_passthrough_size ==> bits::to_bits(
                    final(output)@.subrange(10, n - 8),
                ) == stored::with_stored(Seq::empty(), input@, true)
            },
            r matches Err(CompressionError::InsufficientSpace) ==> old(output)@.len()
                < progress::bound(input@.len() as int) + 18 + 10 * num_chunks(
                input@.len() as int,
                num_threads as int,
            ),
            compressor::fills_blocks(old(self).level) ==> (r matches Err(
                CompressionError::InsufficientSpace,
            ) ==> old(output)@.len() < progress::bound(input@.len() as int) + 18 + 5
                * num_threads),
            num_threads > 1 && input@.len() >= 32768 ==> (r matches Err(
                CompressionError::InsufficientSpace,
            ) ==> outgrown(
                old(self).level,
                input@,
                num_threads as int,
                old(output)@.len() as int,
            )),
            (num_threads <= 1 || input@.len() < 32768) && old(output)@.len() >= 18 && input@.len()
                > old(self).max_passthrough_size ==> (r matches Err(
                CompressionError::InsufficientSpace,
            ) ==> wrap::outgrows(
                old(self).level,
                old(output)@.len() - 10,
                old(output)@.len() - 18,
                input@,
            )),
            (num_threads <= 1 || input@.len() < 32768) && input@.len()
                <= old(self).max_passthrough_size ==> r == if pack::stored_size(
                input@.len() as int,
            ) + 18 <= old(output)@.len() {
                Ok::<usize, CompressionError>(
                    (pack::stored_size(input@.len() as int) + 18) as usize,
                )
            } else {
                Err(CompressionError::InsufficientSpace)
            },
            r matches Err(CompressionError::Stopped(_)) ==> !stop.never_stops(),
    {
        let total: usize = input.len();
        if num_threads <= 1 || total < MIN_PARALLEL_SIZE {
            return self.gzip_compress(input, output, stop);
        }
        let ends: Vec<usize> = plan_chunks(total, num_threads);
        let mut chunks: Vec<Chunk> = Vec::new();
        let mut start: usize = 0;
        let mut k: usize = 0;
        while k < ends.len()
            invariant
                total == input@.len(),
                32768 <= total <= isize::MAX,
                num_threads > 1,
                old(self).wf(),
                is_plan(ends@, total as int),
                k <= ends@.len(),
                start == chunk_start(ends@, k as int),
                chunks@.len() == k,
                forall|j: int|
                    0 <= j < k ==> (#[trigger] chunks@[j]).holds(
                        input@,
                        chunk_start(ends@, j),
                        ends@[j] as int,
                    ),
                forall|j: int|
                    0 <= j < k ==> (#[trigger] chunks@[j]).made_at(
                        self.level,
                        input@,
                        chunk_start(ends@, j),
                        ends@[j] as int,
                    ),
                compressor::fills_blocks(self.level) ==> forall|j: int|
                    0 <= j < k ==> (#[trigger] chunks@[j]).tight(
                        total as int,
                        chunk_start(ends@, j),
                        ends@[j] as int,
                    ),
                evenly(ends@, total as int, num_threads as int),
                *self == *old(self),
                output@ == old(output)@,
            decreases ends@.len() - k,
        {
            let end: usize = ends[k];
            proof {
                assert(chunk_start(ends@, k as int) < ends@[k as int]);
                if k < ends@.len() - 1 {
                    assert(ends@[k as int] < total);
                    lemma_even_chunk(ends@, total as int, num_threads as int, k as int);
                }
            }
            match compress_chunk(self.level, input, start, end, &stop) {
                Ok(chunk) => {
                    chunks.push(chunk);
                },
                Err(e) => {
                    return Err(e);
                },
            }
            start = end;
            k = k + 1;
        }
        assert(chunks_at(self.level, input@, num_threads as int, ends@, chunks@));
        assemble_gzip(input, &ends, &chunks, output)
    }
}

/// The work is shared: there are no more chunks than threads, none is larger than an equal
/// share, rounded up, where each share has 16 KiB at least, and none but the last is smaller
/// than that.
pub proof fn law_shares_are_even(ends: Seq<usize>, len: int, num_threads: int, k: int)
    requires
        is_plan(ends, len),
        evenly(ends, len, num_threads),
        num_threads >= 1,
        16384 <= len,
        0 <= k < ends.len(),
    ensures
        ({
            let shares = if num_threads * 16384 <= len {
                num_threads
            } else {
                len / 16384
            };
            let share = ends[k] - chunk_start(ends, k);
            &&& share * shares <= len + shares - 1
            &&& k < ends.len() - 1 ==> share * shares >= len && share >= 16384
        }),
{
    let n = num_chunks(len, num_threads);
    let shares = if num_threads * 16384 <= len {
        num_threads
    } else {
        len / 16384
    };
    assert(n == shares) by {
        if num_threads * 16384 <= len {
            assert(num_threads <= len / 16384);
        } else {
            assert(num_threads >= len / 16384);
        }
    }
    let size = (len + n - 1) / n;
    let total = len + n - 1;
    vstd::arithmetic::div_mod::lemma_fundamental_div_mod(total, n);
    assert(n * size == size * n) by (nonlinear_arith);
    let m = total % n;
    assert(0 <= m < n) by {
        vstd::arithmetic::div_mod::lemma_mod_bound(total, n);
    }
    assert(size * n == total - m);
    assert(n * 16384 <= len);
    assert(size >= 16384) by (nonlinear_arith)
        requires
            size * n >= len,
            n * 16384 <= len,
            n >= 1,
    ;
    let e = ends[k] as int;
    let s = chunk_start(ends, k);
    assert((k + 1) * size == k * size + size) by (nonlinear_arith);
    if k > 0 {
        assert(ends[k - 1] == if k * size < len {
            k * size
        } else {
            len
        });
        assert(ends[k - 1] < len);
    } else {
        assert(0 * size == 0);
    }
    let share = e - s;
    assert(share <= size);
    assert(share * n <= size * n) by (nonlinear_arith)
        requires
            share <= size,
            n >= 1,
    ;
    if k < ends.len() - 1 {
        assert(ends[k] < len);
        assert(share == size);
    }
}

} // verus!
