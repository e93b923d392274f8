//! zlib and gzip around compressed data.

use crate::bits;
use crate::checksum::adler32;
use crate::checksum::adler32::adler32;
use crate::checksum::crc32;
use crate::checksum::crc32::crc32;
use crate::compress::compressor;
use crate::compress::compressor::Compressor;
use crate::compress::level::CompressionLevel;
use crate::compress::pack;
use crate::compress::progress;
use crate::compress::stored;
use crate::container;
use crate::decompress::laws;
use crate::decompress::phases;
use crate::decompress::window::WrapperFormat;
use crate::error::CompressionError;
use crate::fast_bytes;
use crate::stop::Stop;
use crate::stream;
use vstd::prelude::*;

verus! {

/// Four bytes of `old` at `pos` have been replaced.
pub open spec fn replaced4(old: Seq<u8>, new: Seq<u8>, pos: int) -> bool {
    &&& new.len() == old.len()
    &&& forall|i: int|
        0 <= i < new.len() && !(pos <= i < pos + 4) ==> #[trigger] new[i] == old[i]
}

/// Write a number as four bytes, the most significant first.
pub fn put_be32(output: &mut [u8], pos: usize, v: u32)
    requires
        pos + 4 <= old(output)@.len(),
    ensures
        replaced4(old(output)@, final(output)@, pos as int),
        container::be32(final(output)@, pos as int) == v,
{
    let n: usize = output.len();
    output[pos] = (v / 0x100_0000) as u8;
    output[pos + 1] = (v / 0x1_0000 % 256) as u8;
    output[pos + 2] = (v / 256 % 256) as u8;
    output[pos + 3] = (v % 256) as u8;
}

/// Write a number as four bytes, the least significant first.
pub fn put_le32(output: &mut [u8], pos: usize, v: u32)
    requires
        pos + 4 <= old(output)@.len(),
    ensures
        replaced4(old(output)@, final(output)@, pos as int),
        fast_bytes::le32(final(output)@, pos as int) == v,
{
    let n: usize = output.len();
    output[pos] = (v % 256) as u8;
    output[pos + 1] = (v / 256 % 256) as u8;
    output[pos + 2] = (v / 0x1_0000 % 256) as u8;
    output[pos + 3] = (v / 0x100_0000) as u8;
}

/// The second byte of a zlib header: it tells how hard the data was compressed.
pub open spec fn zlib_flags(level: int) -> u8 {
    if level <= 1 {
        0x01
    } else if level <= 5 {
        0x5E
    } else if level == 6 {
        0x9C
    } else {
        0xDA
    }
}

/// The bytes are a zlib stream that holds `out`: a header, blocks that decode to it,
/// and its checksum.
pub open spec fn holds_zlib(d: Seq<u8>, out: Seq<u8>) -> bool {
    &&& container::zlib_header(d)
    &&& pack::packs(d.subrange(2, d.len() - 4), Seq::empty(), out, true)
    &&& container::be32(d, d.len() - 4) == adler32::adler32_spec(1, out)
}

/// The bytes are a gzip member that holds `out`: a header without optional parts,
/// blocks that decode to it, its checksum and its length.
pub open spec fn holds_gzip(d: Seq<u8>, out: Seq<u8>) -> bool {
    &&& d.len() >= 18
    &&& d.take(10) == seq![0x1Fu8, 0x8B, 8, 0, 0, 0, 0, 0, 0, 0xFF]
    &&& pack::packs(d.subrange(10, d.len() - 8), Seq::empty(), out, true)
    &&& fast_bytes::le32(d, d.len() - 8) == crc32::crc32_spec(0, out)
    &&& fast_bytes::le32(d, d.len() - 4) == out.len() as int % 0x1_0000_0000
}

/// A zlib stream decompresses to what it holds, whatever follows it.
pub proof fn law_zlib_unwraps(d: Seq<u8>, out: Seq<u8>, ext: Seq<u8>, cap: int)
    requires
        holds_zlib(d, out),
        cap >= out.len(),
    ensures
        container::zlib(d + ext, cap) == (container::Unwrapped::Done {
            consumed: d.len() as int,
            out,
        }),
{
    let c = d.len() - 6;
    let all = d + ext;
    let body = d.subrange(2, 2 + c);
    let more = all.subrange(2 + c, all.len() - 4);
    pack::law_packed_decompresses(body, out, more, cap);
    assert(body + more =~= all.subrange(2, all.len() - 4));
    assert(container::be32(all, 2 + c) == container::be32(d, 2 + c));
}

/// A gzip member decompresses to what it holds, whatever follows it.
pub proof fn law_gzip_unwraps(d: Seq<u8>, out: Seq<u8>, ext: Seq<u8>, cap: int)
    requires
        holds_gzip(d, out),
        cap >= out.len(),
    ensures
        container::gzip(d + ext, cap) == (container::Unwrapped::Done {
            consumed: d.len() as int,
            out,
        }),
{
    let c = d.len() - 18;
    let all = d + ext;
    let body = d.subrange(10, 10 + c);
    let more = all.subrange(10 + c, all.len() - 8);
    assert(all[0] == d.take(10)[0] && all[1] == d.take(10)[1] && all[2] == d.take(10)[2] && all[3]
        == d.take(10)[3]);
    assert(container::gzip_header(all) == Some(10int));
    pack::law_packed_decompresses(body, out, more, cap);
    assert(body + more =~= all.subrange(10, all.len() - 8));
    assert(fast_bytes::le32(all, 10 + c) == fast_bytes::le32(d, 10 + c));
    assert(fast_bytes::le32(all, 14 + c) == fast_bytes::le32(d, 14 + c));
}

/// A zlib stream decompresses piece by piece to what it holds, whatever follows it.
pub proof fn law_zlib_streams(d: Seq<u8>, out: Seq<u8>, ext: Seq<u8>)
    requires
        holds_zlib(d, out),
    ensures
        phases::streamed(WrapperFormat::Zlib, d + ext) == (phases::Streamed::Done {
            out,
            matched: Some(true),
        }),
{
    let c = d.len() - 6;
    let all = d + ext;
    let head = d.take(2);
    let body = d.subrange(2, 2 + c);
    let more = all.skip(2 + c);
    let p = pack::lemma_packed_inflates(head, body, out, more, out.len() as int);
    assert(head + (body + more) =~= all);
    laws::lemma_streams(all, 2, out.len() as int, 16 + p, out);
    let first = phases::first_bytes(all);
    assert(first[0] == d[0] && first[1] == d[1]);
    assert(stream::bytes_for(16 + p) == 2 + c);
    assert(container::be32(all, 2 + c) == container::be32(d, 2 + c));
}

/// A gzip member decompresses piece by piece to what it holds, whatever follows it.
pub proof fn law_gzip_streams(d: Seq<u8>, out: Seq<u8>, ext: Seq<u8>)
    requires
        holds_gzip(d, out),
    ensures
        phases::streamed(WrapperFormat::Gzip, d + ext) == (phases::Streamed::Done {
            out,
            matched: Some(true),
        }),
{
    let c = d.len() - 18;
    let all = d + ext;
    let head = d.take(10);
    let body = d.subrange(10, 10 + c);
    let more = all.skip(10 + c);
    let p = pack::lemma_packed_inflates(head, body, out, more, out.len() as int);
    assert(head + (body + more) =~= all);
    laws::lemma_streams(all, 10, out.len() as int, 80 + p, out);
    let first = phases::first_bytes(all);
    assert(first[0] == head[0] && first[1] == head[1] && first[2] == head[2] && first[3]
        == head[3]);
    assert(phases::gzip_header(first) == Some(10int));
    assert(stream::bytes_for(80 + p) == 10 + c);
    assert(fast_bytes::le32(all, 10 + c) == fast_bytes::le32(d, 10 + c));
    assert(fast_bytes::le32(all, 14 + c) == fast_bytes::le32(d, 14 + c));
}

/// Raw DEFLATE data decompresses piece by piece to what it holds, whatever follows
/// it.
pub proof fn law_deflate_streams(d: Seq<u8>, out: Seq<u8>, ext: Seq<u8>)
    requires
        pack::packs(d, Seq::empty(), out, true),
    ensures
        phases::streamed(WrapperFormat::Raw, d + ext) == (phases::Streamed::Done {
            out,
            matched: None,
        }),
{
    pack::law_packed_decompresses(d, out, ext, out.len() as int);
    laws::law_stream_parity(d + ext, out.len() as int);
}

/// Write a gzip header without any optional part.
pub fn put_gzip_header(output: &mut [u8])
    requires
        old(output)@.len() >= 10,
    ensures
        final(output)@.len() == old(output)@.len(),
        final(output)@.take(10) == seq![0x1Fu8, 0x8B, 8, 0, 0, 0, 0, 0, 0, 0xFF],
        final(output)@.skip(10) == old(output)@.skip(10),
{
    let n: usize = output.len();
    output[0] = 0x1F;
    output[1] = 0x8B;
    output[2] = 8;
    output[3] = 0;
    output[4] = 0;
    output[5] = 0;
    output[6] = 0;
    output[7] = 0;
    output[8] = 0;
    output[9] = 0xFF;
    assert(output@.take(10) =~= seq![0x1Fu8, 0x8B, 8, 0, 0, 0, 0, 0, 0, 0xFF]);
    assert(output@.skip(10) =~= old(output)@.skip(10));
}

/// The number of bytes as a gzip footer gives it.
pub fn gzip_size(len: usize) -> (r: u32)
    ensures
        r == len as int % 0x1_0000_0000,
{
    (len as u64 % 0x1_0000_0000) as u32
}

/// What a compressor of this level writes of the data into an output of `room` bytes takes
/// more than that, or more than `limit`.
#[verifier::opaque]
pub open spec fn outgrows(level: CompressionLevel, room: int, limit: int, h: Seq<u8>) -> bool {
    ||| compressor::level_overruns(level, room, h, 0, true)
    ||| exists|data: Seq<u8>|
        #[trigger] compressor::level_writes(level, room, data, h, 0, true) && data.len() > limit
}

impl Compressor {
    /// Compress data in zlib format (2-byte header + DEFLATE + Adler-32).
    pub fn zlib_compress<S: Stop>(
        &mut self,
        input: &[u8],
        output: &mut [u8],
        stop: S,
    ) -> (r: Result<usize, CompressionError>)
        requires
            old(self).wf(),
        ensures
            final(self).wf(),
            final(self).same_setup(*old(self)),
            final(self).incremental_pos == old(self).incremental_pos,
            final(output)@.len() == old(output)@.len(),
            r matches Ok(n) ==> {
                &&& n <= old(output)@.len()
                &&& n <= progress::bound(input@.len() as int) + 6
                &&& holds_zlib(final(output)@.take(n as int), input@)
                &&& final(output)@[0] == 0x78
                &&& final(output)@[1] == zlib_flags(old(self).level.number())
                &&& input@.len() <= old(self).max_passthrough_size ==> bits::to_bits(
                    final(output)@.subrange(2, n - 4),
                ) == stored::with_stored(Seq::empty(), input@, true)
                &&& input@.len() > old(self).max_passthrough_size ==> old(self).writes(
                    old(output)@.len() - 2,
                    final(output)@.subrange(2, n - 4),
                    input@,
                    0,
                    true,
                )
                &&& old(self).codes_input(input@) ==> pack::holds_coded(
                    final(output)@.subrange(2, n - 4),
                    input@,
                    0,
                    true,
                )
            },
            r matches Err(CompressionError::InsufficientSpace) ==> old(output)@.len()
                < progress::bound(input@.len() as int) + 6,
            old(output)@.len() < 6 ==> r == Err::<usize, CompressionError>(
                CompressionError::InsufficientSpace,
            ),
            input@.len() <= old(self).max_passthrough_size ==> r == if pack::stored_size(
                input@.len() as int,
            ) + 6 <= old(output)@.len() {
                Ok::<usize, CompressionError>(
                    (pack::stored_size(input@.len() as int) + 6) as usize,
                )
            } else {
                Err(CompressionError::InsufficientSpace)
            },
            old(output)@.len() >= 6 && input@.len() > old(self).max_passthrough_size ==> (
            r matches Err(CompressionError::InsufficientSpace) ==> outgrows(
                old(self).level,
                old(output)@.len() - 2,
                old(output)@.len() - 6,
                input@,
            )),
            r matches Err(CompressionError::Stopped(_)) ==> !stop.never_stops(),
    {
        let size: usize = output.len();
        let level: u32 = self.level.level();
        if size < 6 {
            return Err(CompressionError::InsufficientSpace);
        }
        output[0] = 0x78;
        output[1] = if level <= 1 {
            0x01
        } else if level <= 5 {
            0x5E
        } else if level == 6 {
            0x9C
        } else {
            0xDA
        };
        let ghost head = output@;
        let (first, rest) = output.split_at_mut(2);
        let r: Result<usize, CompressionError> = self.deflate_compress(input, rest, stop);
        let ghost body = rest@;
        let c: usize = match r {
            Ok(c) => c,
            Err(e) => {
                proof {
                    reveal(outgrows);
                }
                return Err(e);
            },
        };
        if size - 2 - c < 4 {
            proof {
                reveal(outgrows);
                assert(body.take(c as int).len() == c);
            }
            return Err(CompressionError::InsufficientSpace);
        }
        let ghost mid = output@;
        let checksum: u32 = adler32(1, input);
        put_be32(output, 2 + c, checksum);
        proof {
            let d = output@.take(c + 6);
            assert(d.subrange(2, 2 + c) =~= body.take(c as int));
            assert(d[0] == mid[0] && d[1] == mid[1]);
            assert(mid[0] == head[0] && mid[1] == head[1]);
            assert(container::be32(d, 2 + c) == container::be32(output@, 2 + c));
            assert(holds_zlib(d, input@));
            assert(output@.subrange(2, 2 + c) =~= body.take(c as int));
        }
        Ok(c + 6)
    }

    /// Compress data in gzip format (10-byte header + DEFLATE + CRC-32 + ISIZE).
    pub fn gzip_compress<S: Stop>(
        &mut self,
        input: &[u8],
        output: &mut [u8],
        stop: S,
    ) -> (r: Result<usize, CompressionError>)
        requires
            old(self).wf(),
        ensures
            final(self).wf(),
            final(self).same_setup(*old(self)),
            final(self).incremental_pos == old(self).incremental_pos,
            final(output)@.len() == old(output)@.len(),
            r matches Ok(n) ==> {
                &&& n <= old(output)@.len()
                &&& n <= progress::bound(input@.len() as int) + 18
                &&& holds_gzip(final(output)@.take(n as int), input@)
                &&& input@.len() <= old(self).max_passthrough_size ==> bits::to_bits(
                    final(output)@.subrange(10, n - 8),
                ) == stored::with_stored(Seq::empty(), input@, true)
                &&& input@.len() > old(self).max_passthrough_size ==> old(self).writes(
                    old(output)@.len() - 10,
                    final(output)@.subrange(10, n - 8),
                    input@,
                    0,
                    true,
                )
                &&& old(self).codes_input(input@) ==> pack::holds_coded(
                    final(output)@.subrange(10, n - 8),
                    input@,
                    0,
                    true,
                )
            },
            r matches Err(CompressionError::InsufficientSpace) ==> old(output)@.len()
                < progress::bound(input@.len() as int) + 18,
            old(output)@.len() < 18 ==> r == Err::<usize, CompressionError>(
                CompressionError::InsufficientSpace,
            ),
            input@.len() <= old(self).max_passthrough_size ==> r == if pack::stored_size(
                input@.len() as int,
            ) + 18 <= old(output)@.len() {
                Ok::<usize, CompressionError>(
                    (pack::stored_size(input@.len() as int) + 18) as usize,
                )
            } else {
                Err(CompressionError::InsufficientSpace)
            },
            old(output)@.len() >= 18 && input@.len() > old(self).max_passthrough_size ==> (
            r matches Err(CompressionError::InsufficientSpace) ==> outgrows(
                old(self).level,
                old(output)@.len() - 10,
                old(output)@.len() - 18,
                input@,
            )),
            r matches Err(CompressionError::Stopped(_)) ==> !stop.never_stops(),
    {
        let size: usize = output.len();
        if size < 18 {
            return Err(CompressionError::InsufficientSpace);
        }
        put_gzip_header(output);
        let ghost head = output@;
        let (first, rest) = output.split_at_mut(10);
        let r: Result<usize, CompressionError> = self.deflate_compress(input, rest, stop);
        let ghost body = rest@;
        let c: usize = match r {
            Ok(c) => c,
            Err(e) => {
                proof {
                    reveal(outgrows);
                }
                return Err(e);
            },
        };
        if size - 10 - c < 8 {
            proof {
                reveal(outgrows);
                assert(body.take(c as int).len() == c);
            }
            return Err(CompressionError::InsufficientSpace);
        }
        let ghost mid = output@;
        let checksum: u32 = crc32(0, input);
        put_le32(output, 10 + c, checksum);
        let ghost mid2 = output@;
        put_le32(output, 14 + c, gzip_size(input.len()));
        proof {
            let d = output@.take(c + 18);
            assert(d.subrange(10, 10 + c) =~= body.take(c as int));
            assert(mid.take(10) =~= head.take(10));
            assert(output@.take(10) =~= head.take(10));
            assert(d[0] == head.take(10)[0] && d[1] == head.take(10)[1] && d[2] == head.take(10)[2]
                && d[3] == head.take(10)[3]);
            assert(fast_bytes::le32(d, 10 + c) == fast_bytes::le32(mid2, 10 + c));
            assert(fast_bytes::le32(d, 14 + c) == fast_bytes::le32(output@, 14 + c));
            assert(d.take(10) =~= head.take(10));
            assert(holds_gzip(d, input@));
            assert(output@.subrange(10, 10 + c) =~= body.take(c as int));
        }
        Ok(c + 18)
    }
}

/// The header that is written is one of the format, and says how hard the data was
/// compressed: more for higher levels, the least for levels 0 and 1, the most from 7 on.
pub proof fn law_zlib_flags(level: int, higher: int, rest: Seq<u8>)
    requires
        0 <= level <= higher,
        rest.len() >= 4,
    ensures
        container::zlib_header(seq![0x78u8, zlib_flags(level)] + rest),
        zlib_flags(level) / 64 <= zlib_flags(higher) / 64,
        zlib_flags(level) / 64 == 0 <==> level <= 1,
        zlib_flags(level) / 64 == 1 <==> 2 <= level <= 5,
        zlib_flags(level) / 64 == 2 <==> level == 6,
{
    let d = seq![0x78u8, zlib_flags(level)] + rest;
    assert(d[0] == 0x78 && d[1] == zlib_flags(level));
}

} // verus!
