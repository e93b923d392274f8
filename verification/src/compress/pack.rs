//! Whole bytes of compressed data and what they hold.

use crate::bits;
use crate::compress::bitstream::OutputBitstream;
use crate::compress::emit;
use crate::compress::progress;
use crate::compress::stored;
use crate::compress::stored::{put_stored, write_uncompressed_blocks};
use crate::compress::writer::put_bits;
use crate::container;
use crate::error::CompressionError;
use crate::stream;
use vstd::arithmetic::power2::*;
use vstd::prelude::*;

verus! {

/// The bytes hold blocks, in the bits `b`, that take the output from `pre` to
/// `out`; less than a byte is left over. If `last` is set, the last block is marked
/// as such.
pub open spec fn packed(
    data: Seq<u8>,
    pre: Seq<u8>,
    out: Seq<u8>,
    last: bool,
    b: Seq<bool>,
) -> bool {
    &&& emit::after_block(pre, b, out, last)
    &&& 8 * data.len() - 8 < b.len() <= 8 * data.len()
    &&& b == bits::to_bits(data).take(b.len() as int)
}

/// The bytes hold blocks that take the output from `pre` to `out`.
pub open spec fn packs(data: Seq<u8>, pre: Seq<u8>, out: Seq<u8>, last: bool) -> bool {
    exists|b: Seq<bool>| #[trigger] packed(data, pre, out, last, b)
}

/// The bytes hold the data from `start` to its end in blocks, each of them a parse of its
/// bytes and written in the cheapest of three ways: stored, with the static codes, or with
/// Huffman codes for its symbols. If `last` is set, the last block is marked as such.
pub open spec fn holds_coded(data: Seq<u8>, h: Seq<u8>, start: int, last: bool) -> bool {
    exists|b: Seq<bool>|
        {
            &&& #[trigger] progress::coded(Seq::empty(), b, h, start, h.len() as int, last)
            &&& 8 * data.len() - 8 < b.len() <= 8 * data.len()
            &&& b == bits::to_bits(data).take(b.len() as int)
        }
}

/// The bytes hold whole blocks without anything left over.
pub open spec fn packs_whole(data: Seq<u8>, pre: Seq<u8>, out: Seq<u8>) -> bool {
    packed(data, pre, out, false, bits::to_bits(data))
}

/// The bits of two byte sequences, one behind the other.
pub proof fn lemma_to_bits_add(a: Seq<u8>, b: Seq<u8>)
    ensures
        bits::to_bits(a + b) == bits::to_bits(a) + bits::to_bits(b),
{
    assert(bits::to_bits(a + b) =~= bits::to_bits(a) + bits::to_bits(b)) by {
        assert forall|i: int| 0 <= i < 8 * (a + b).len() implies bits::to_bits(a + b)[i] == (
        bits::to_bits(a) + bits::to_bits(b))[i] by {
            if i < 8 * a.len() {
                assert((a + b)[i / 8] == a[i / 8]);
            } else {
                let j = i - 8 * a.len();
                assert(i / 8 - a.len() == j / 8);
                assert((a + b)[i / 8] == b[j / 8]);
                assert(i % 8 == j % 8);
            }
        }
    }
}

/// The bits of packed data, followed by what else there is.
proof fn lemma_packed_layout(data: Seq<u8>, ext: Seq<u8>, b: Seq<bool>)
    requires
        b.len() <= 8 * data.len(),
        b == bits::to_bits(data).take(b.len() as int),
    ensures
        b + (bits::to_bits(data).skip(b.len() as int) + bits::to_bits(ext)) == bits::to_bits(
            data + ext,
        ),
{
    lemma_to_bits_add(data, ext);
    assert(b + (bits::to_bits(data).skip(b.len() as int) + bits::to_bits(ext)) =~= bits::to_bits(
        data,
    ) + bits::to_bits(ext));
}

/// What holds the data decodes to it, wherever among whole bytes it stands.
pub proof fn lemma_packed_inflates(
    head: Seq<u8>,
    data: Seq<u8>,
    out: Seq<u8>,
    ext: Seq<u8>,
    cap: int,
) -> (p: int)
    requires
        packs(data, Seq::empty(), out, true),
        cap >= out.len(),
    ensures
        8 * data.len() - 8 < p <= 8 * data.len(),
        stream::inflate(
            bits::to_bits(head + (data + ext)),
            8 * head.len() as int,
            Seq::empty(),
            cap,
        ) == (stream::Step::Next { p: 8 * head.len() + p, out }),
{
    let b = choose|b: Seq<bool>| #[trigger] packed(data, Seq::empty(), out, true, b);
    let z = bits::to_bits(head);
    let rest = bits::to_bits(data).skip(b.len() as int) + bits::to_bits(ext);
    lemma_packed_layout(data, ext, b);
    lemma_to_bits_add(head, data + ext);
    assert(z + b + rest =~= z + (b + rest));
    assert(emit::done_at(Seq::empty(), b, out, z, rest, cap)) by {
        reveal(emit::done);
        assert(emit::whole(z));
    }
    emit::lemma_done_at(Seq::empty(), b, out, z, rest, cap);
    b.len() as int
}

/// What holds the data decompresses to it, whatever follows.
pub proof fn law_packed_decompresses(data: Seq<u8>, out: Seq<u8>, ext: Seq<u8>, cap: int)
    requires
        packs(data, Seq::empty(), out, true),
        cap >= out.len(),
    ensures
        container::deflate(data + ext, cap) == (container::Unwrapped::Done {
            consumed: data.len() as int,
            out,
        }),
{
    let e = Seq::<u8>::empty();
    let p = lemma_packed_inflates(e, data, out, ext, cap);
    assert(e + (data + ext) =~= data + ext);
}

/// Whole blocks followed by blocks that go on from there.
pub proof fn law_packed_concat(
    a: Seq<u8>,
    b: Seq<u8>,
    pre: Seq<u8>,
    mid: Seq<u8>,
    out: Seq<u8>,
    last: bool,
)
    requires
        packs_whole(a, pre, mid),
        packs(b, mid, out, last),
        mid.len() <= out.len(),
    ensures
        packs(a + b, pre, out, last),
        !last && packs_whole(b, mid, out) ==> packs_whole(a + b, pre, out),
{
    let x = bits::to_bits(a);
    lemma_to_bits_add(a, b);
    let y = choose|y: Seq<bool>| #[trigger] packed(b, mid, out, last, y);
    lemma_chain_concat(pre, x, mid, y, out, last);
    assert((x + y) =~= bits::to_bits(a + b).take((x + y).len() as int));
    assert(packed(a + b, pre, out, last, x + y));
    if !last && packs_whole(b, mid, out) {
        let w = bits::to_bits(b);
        lemma_chain_concat(pre, x, mid, w, out, last);
        assert(bits::to_bits(a + b) =~= bits::to_bits(a + b).take(8 * (a + b).len() as int));
        assert(packed(a + b, pre, out, false, x + w));
    }
}

proof fn lemma_chain_concat(
    pre: Seq<u8>,
    x: Seq<bool>,
    mid: Seq<u8>,
    y: Seq<bool>,
    out: Seq<u8>,
    last: bool,
)
    requires
        emit::chain(pre, x, mid),
        emit::whole(x),
        emit::after_block(mid, y, out, last),
        mid.len() <= out.len(),
    ensures
        emit::after_block(pre, x + y, out, last),
{
    reveal(emit::chain);
    reveal(emit::done);
    assert forall|z: Seq<bool>, ext: Seq<bool>, cap: int|
        emit::whole(z) && cap >= out.len() && last implies #[trigger] emit::done_at(
        pre,
        x + y,
        out,
        z,
        ext,
        cap,
    ) by {
        assert(emit::whole(z + x));
        assert(emit::chain_at(pre, x, mid, z, y + ext, cap));
        assert(emit::done_at(mid, y, out, z + x, ext, cap));
        lemma_concat_at(pre, x, mid, y, out, z, ext, cap);
    }
    assert forall|z: Seq<bool>, ext: Seq<bool>, cap: int|
        emit::whole(z) && cap >= out.len() && !last implies #[trigger] emit::chain_at(
        pre,
        x + y,
        out,
        z,
        ext,
        cap,
    ) by {
        assert(emit::whole(z + x));
        assert(emit::chain_at(pre, x, mid, z, y + ext, cap));
        assert(emit::chain_at(mid, y, out, z + x, ext, cap));
        lemma_concat_at(pre, x, mid, y, out, z, ext, cap);
    }
}

proof fn lemma_concat_at(
    pre: Seq<u8>,
    x: Seq<bool>,
    mid: Seq<u8>,
    y: Seq<bool>,
    out: Seq<u8>,
    z: Seq<bool>,
    ext: Seq<bool>,
    cap: int,
)
    requires
        emit::chain_at(pre, x, mid, z, y + ext, cap),
    ensures
        emit::done_at(mid, y, out, z + x, ext, cap) ==> emit::done_at(pre, x + y, out, z, ext, cap),
        emit::chain_at(mid, y, out, z + x, ext, cap) ==> emit::chain_at(
            pre,
            x + y,
            out,
            z,
            ext,
            cap,
        ),
{
    reveal(emit::chain_at);
    reveal(emit::done_at);
    assert(z + (x + y) + ext =~= z + x + (y + ext));
    assert(z + (x + y) + ext =~= (z + x) + y + ext);
}

/// The bits up to a whole byte, filled up with zeros.
pub open spec fn padded(b: Seq<bool>) -> Seq<bool> {
    b + bits::num_bits(0, (stream::align8(b.len() as int) - b.len()) as nat)
}

/// Write the last, partial byte; returns the number of bytes written.
pub fn finish_bytes(os: &mut OutputBitstream<'_>) -> (r: Option<usize>)
    requires
        old(os).flushed(),
    ensures
        final(os).buf@.len() == old(os).buf@.len(),
        final(final(os).buf)@ == final(old(os).buf)@,
        r matches Some(n) ==> {
            &&& !old(os).overflow
            &&& n <= final(os).buf@.len()
            &&& 8 * n == stream::align8(old(os).bits().len() as int)
            &&& old(os).bits() == bits::to_bits(final(os).buf@.take(n as int)).take(
                old(os).bits().len() as int,
            )
            &&& bits::to_bits(final(os).buf@.take(n as int)) == padded(old(os).bits())
        },
        r is None ==> old(os).overflow || stream::align8(old(os).bits().len() as int) > 8
            * old(os).buf@.len(),
{
    let ghost b0 = os.bits();
    let ghost p = b0.len() as int;
    if os.overflow {
        return None;
    }
    assert(p == 8 * os.pos + os.bitcount);
    if os.bitcount > 0 {
        let fill: u32 = 8 - os.bitcount;
        proof {
            lemma_pow2_pos(fill as nat);
        }
        put_bits(os, 0, fill);
        if os.overflow {
            return None;
        }
    }
    proof {
        let data = os.buf@.take(os.pos as int);
        assert(os.bits().len() == 8 * os.pos + os.bitcount);
        assert(os.bitcount == 0);
        assert(os.bits() =~= bits::to_bits(data));
        assert(b0 =~= bits::to_bits(data).take(p));
        assert(os.bits() =~= padded(b0));
    }
    Some(os.pos)
}

/// The size of `n` bytes that are stored.
pub open spec fn stored_size(n: int) -> int {
    n + 5 * stored::stored_blocks(n)
}

/// Output uncompressed blocks only: those of the input from `from` on.
pub fn store_blocks(input: &[u8], from: usize, output: &mut [u8], is_last: bool) -> (r: Result<
    usize,
    CompressionError,
>)
    requires
        from <= input@.len(),
    ensures
        final(output)@.len() == old(output)@.len(),
        r == if stored_size(input@.len() - from) <= old(output)@.len() {
            Ok::<usize, CompressionError>(stored_size(input@.len() - from) as usize)
        } else {
            Err(CompressionError::InsufficientSpace)
        },
        r matches Ok(n) ==> packs(
            final(output)@.take(n as int),
            input@.take(from as int),
            input@,
            is_last,
        ) && (!is_last ==> packs_whole(
            final(output)@.take(n as int),
            input@.take(from as int),
            input@,
        )) && bits::to_bits(final(output)@.take(n as int)) == stored::with_stored(
            Seq::empty(),
            input@.skip(from as int),
            is_last,
        ),
{
    let total: usize = input.len();
    let len: usize = total - from;
    let ghost h = input@;
    let ghost pre = h.take(from as int);
    let mut os: OutputBitstream<'_> = OutputBitstream::new(output);
    let ghost b0 = os.bits();
    assert(b0.len() == 0);
    proof {
        emit::lemma_chain_start(pre);
        assert(b0 =~= Seq::empty());
    }
    if len == 0 {
        put_stored(&mut os, input, from, 0, is_last);
        proof {
            stored::lemma_stored_bits_len(0, h.subrange(from as int, from + 0), is_last);
            if !os.overflow {
                stored::lemma_stored_block(b0, h, from as int, 0, is_last);
            }
        }
    } else {
        write_uncompressed_blocks(&mut os, input, from, len, is_last);
        proof {
            stored::lemma_stored_end(0, len as int);
        }
    }
    assert(h.take(from + len) =~= h);
    assert(h.subrange(from as int, from + len) =~= h.skip(from as int));
    proof {
        if !os.overflow {
            assert(os.bits() == stored::with_stored(b0, h.skip(from as int), is_last));
            emit::lemma_extends_apply(pre, b0, pre, os.bits(), h, is_last);
        }
    }
    let ghost b1 = os.bits();
    let r: Option<usize> = finish_bytes(&mut os);
    match r {
        Some(n) => {
            proof {
                assert(b1.len() % 8 == 0);
                assert(packed(os.buf@.take(n as int), pre, h, is_last, b1));
                assert(b1 =~= bits::to_bits(os.buf@.take(n as int)));
            }
            Ok(n)
        },
        None => Err(CompressionError::InsufficientSpace),
    }
}

/// Level 0: output uncompressed blocks only.
pub fn deflate_compress_none(input: &[u8], output: &mut [u8]) -> (r: Result<
    usize,
    CompressionError,
>)
    ensures
        final(output)@.len() == old(output)@.len(),
        r == if stored_size(input@.len() as int) <= old(output)@.len() {
            Ok::<usize, CompressionError>(stored_size(input@.len() as int) as usize)
        } else {
            Err(CompressionError::InsufficientSpace)
        },
        r matches Ok(n) ==> packs(final(output)@.take(n as int), Seq::empty(), input@, true)
            && bits::to_bits(final(output)@.take(n as int)) == stored::with_stored(
            Seq::empty(),
            input@,
            true,
        ),
{
    let r: Result<usize, CompressionError> = store_blocks(input, 0, output, true);
    assert(input@.take(0) =~= Seq::<u8>::empty());
    assert(input@.skip(0) =~= input@);
    r
}

/// Level 0 chunk variant: output uncompressed blocks with control over whether the
/// last of them is the last of all.
pub fn deflate_compress_none_chunk(
    input: &[u8],
    chunk_start: usize,
    output: &mut [u8],
    is_last: bool,
) -> (r: Result<usize, CompressionError>)
    requires
        chunk_start <= input@.len(),
    ensures
        final(output)@.len() == old(output)@.len(),
        r == if stored_size(input@.len() - chunk_start) <= old(output)@.len() {
            Ok::<usize, CompressionError>(stored_size(input@.len() - chunk_start) as usize)
        } else {
            Err(CompressionError::InsufficientSpace)
        },
        r matches Ok(n) ==> packs(
            final(output)@.take(n as int),
            input@.take(chunk_start as int),
            input@,
            is_last,
        ) && (!is_last ==> packs_whole(
            final(output)@.take(n as int),
            input@.take(chunk_start as int),
            input@,
        )) && bits::to_bits(final(output)@.take(n as int)) == stored::with_stored(
            Seq::empty(),
            input@.skip(chunk_start as int),
            is_last,
        ),
{
    store_blocks(input, chunk_start, output, is_last)
}

/// Storing never takes more room than the bound.
pub proof fn lemma_stored_in_bound(n: int)
    requires
        0 <= n,
    ensures
        stored_size(n) <= progress::bound(n),
        n >= 5000 ==> stored_size(n) <= n + 5 * (n / 5000),
{
    if n > 0 {
        assert((n - 1) / 65535 + 1 <= (n + 4999) / 5000);
    }
}

} // verus!
