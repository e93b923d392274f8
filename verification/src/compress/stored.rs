//! Uncompressed blocks.

use crate::arith::min_usize;
use crate::bits;
use crate::compress::bitstream;
use crate::compress::bitstream::OutputBitstream;
use crate::compress::emit;
use crate::compress::precode;
use crate::compress::writer;
use crate::compress::writer::{put_bits, put_type};
use crate::stream;
use vstd::arithmetic::power2::*;
use vstd::prelude::*;

verus! {

/// The bit position at which `n` bytes end that are stored from bit position `p`
/// on, in blocks of at most 65535 bytes.
pub open spec fn stored_end(p: int, n: int) -> int
    decreases n,
{
    if n <= 65535 {
        stream::align8(p + 3) + 32 + 8 * n
    } else {
        stored_end(stream::align8(p + 3) + 32 + 8 * 65535, n - 65535)
    }
}

/// The number of stored blocks that hold `n` bytes, at least one.
pub open spec fn stored_blocks(n: int) -> int {
    if n <= 0 {
        1
    } else {
        (n - 1) / 65535 + 1
    }
}

pub proof fn lemma_stored_end(p: int, n: int)
    requires
        0 <= p,
        0 < n,
    ensures
        stored_end(p, n) == stream::align8(p + 3) + 32 + 40 * (stored_blocks(n) - 1) + 8 * n,
        stored_end(p, n) <= stream::align8(p) + 40 * stored_blocks(n) + 8 * n,
        stored_end(p, n) % 8 == 0,
    decreases n,
{
    if n > 65535 {
        let q = stream::align8(p + 3) + 32 + 8 * 65535;
        lemma_stored_end(q, n - 65535);
    }
}

/// The bits that storing takes beside the type of the first block.
pub proof fn lemma_stored_cost(p: int, n: int)
    requires
        0 <= p,
        0 < n,
    ensures
        stored_end(p, n) - p - 3 == (if p % 8 <= 5 {
            5 - p % 8
        } else {
            13 - p % 8
        }) + 32 + 40 * ((n - 1) / 65535) + 8 * n,
{
    lemma_stored_end(p, n);
    let r = p % 8;
    let q = p / 8;
    assert(p == 8 * q + r);
    assert(stream::align8(p + 3) == p + 3 + (if r <= 5 {
        5 - r
    } else {
        13 - r
    })) by {
        if r <= 5 {
            assert((p + 3 + 7) / 8 == q + 1);
        } else {
            assert((p + 3 + 7) / 8 == q + 2);
        }
    }
}

/// The bits of a stored block that is written at bit position `p`.
pub open spec fn stored_bits(p: int, data: Seq<u8>, last: bool) -> Seq<bool> {
    precode::type_bits(last, 0) + bits::num_bits(0, (stream::align8(p + 3) - (p + 3)) as nat)
        + bits::num_bits(data.len() as int, 16) + bits::num_bits(65535 - data.len(), 16)
        + bits::to_bits(data)
}

/// The bits `b` with the data behind them, stored in blocks of at most 65535 bytes.
pub open spec fn with_stored(b: Seq<bool>, data: Seq<u8>, last: bool) -> Seq<bool>
    decreases data.len(),
{
    if data.len() <= 65535 {
        b + stored_bits(b.len() as int, data, last)
    } else {
        with_stored(
            b + stored_bits(b.len() as int, data.take(65535), false),
            data.skip(65535),
            last,
        )
    }
}

/// The first of several stored blocks ends before the last one.
proof fn lemma_stored_step(p: int, n: int, first: int)
    requires
        0 <= p,
        0 < n,
        first == if n <= 65535 {
            n
        } else {
            65535
        },
    ensures
        stored_end(p, first) <= stored_end(p, n),
        first < n ==> stored_end(stored_end(p, first), n - first) == stored_end(p, n),
{
    lemma_stored_end(p, n);
    lemma_stored_end(p, first);
}

pub proof fn lemma_stored_bits_len(p: int, data: Seq<u8>, last: bool)
    requires
        0 <= p,
        data.len() <= 65535,
    ensures
        stored_bits(p, data, last).len() == stored_end(p, data.len() as int) - p,
{
    precode::lemma_type_read(Seq::empty(), last, 0, Seq::empty());
}

/// Where stored data ends.
pub proof fn lemma_with_stored_len(b: Seq<bool>, data: Seq<u8>, last: bool)
    ensures
        with_stored(b, data, last).len() == stored_end(b.len() as int, data.len() as int),
    decreases data.len(),
{
    if data.len() <= 65535 {
        lemma_stored_bits_len(b.len() as int, data, last);
    } else {
        let first = data.take(65535);
        lemma_stored_bits_len(b.len() as int, first, false);
        lemma_with_stored_len(
            b + stored_bits(b.len() as int, first, false),
            data.skip(65535),
            last,
        );
    }
}

#[verifier::spinoff_prover]
#[verifier::rlimit(60)]
proof fn lemma_stored_read(
    b: Seq<bool>,
    data: Seq<u8>,
    last: bool,
    out: Seq<u8>,
    ext: Seq<bool>,
    cap: int,
)
    requires
        data.len() <= 65535,
        cap >= out.len() + data.len(),
    ensures
        ({
            let p = b.len() as int;
            let sb = stored_bits(p, data, last);
            &&& sb.len() == stored_end(p, data.len() as int) - p
            &&& sb[0] == last
            &&& stream::block(b + sb + ext, p, out, cap) == (stream::Step::Next {
                p: p + sb.len(),
                out: out + data,
            })
        }),
{
    lemma2_to64();
    let p = b.len() as int;
    let n = data.len() as int;
    let pad = (stream::align8(p + 3) - (p + 3)) as nat;
    let t = precode::type_bits(last, 0);
    let z = bits::num_bits(0, pad);
    let f1 = bits::num_bits(n, 16);
    let f2 = bits::num_bits(65535 - n, 16);
    let f3 = bits::to_bits(data);
    let sb = stored_bits(p, data, last);
    let bb = b + sb + ext;
    precode::lemma_type_read(b, last, 0, z + f1 + f2 + f3 + ext);
    assert(b + t + (z + f1 + f2 + f3 + ext) =~= bb);
    emit::lemma_field_read(b + t + z, n, 16, f2 + f3 + ext);
    assert(b + t + z + f1 + (f2 + f3 + ext) =~= bb);
    emit::lemma_field_read(b + t + z + f1, 65535 - n, 16, f3 + ext);
    assert(b + t + z + f1 + f2 + (f3 + ext) =~= bb);
    let d = stream::align8(p + 3) + 32;
    assert((b + t + z + f1 + f2).len() == d);
    assert forall|i: int| 0 <= i < n implies #[trigger] bits::le_val(bb, d + 8 * i, 8) == data[i] by {
        bits::lemma_to_bits_byte(data, i);
        assert forall|k: int| 0 <= k < 8 implies #[trigger] bits::bit(bb, d + 8 * i + k) == bits::bit(
            f3,
            8 * i + k,
        ) by {
            assert(bb[d + 8 * i + k] == f3[8 * i + k]);
        }
        bits::lemma_le_same(bb, d + 8 * i, f3, 8 * i, 8);
    }
    assert(stream::bytes_at(bb, d, n) =~= data);
}

/// A stored block looks the same behind any number of whole bytes.
proof fn lemma_stored_shift(z: int, p: int, data: Seq<u8>, last: bool)
    requires
        0 <= z,
        z % 8 == 0,
        0 <= p,
        data.len() <= 65535,
    ensures
        stored_bits(z + p, data, last) == stored_bits(p, data, last),
{
    assert(stream::align8(z + p + 3) - (z + p + 3) == stream::align8(p + 3) - (p + 3));
}

/// A stored block behind `b0`, itself behind whole bytes `z`, decodes to its data.
proof fn lemma_stored_anywhere(
    z: Seq<bool>,
    b0: Seq<bool>,
    data: Seq<u8>,
    last: bool,
    out: Seq<u8>,
    ext: Seq<bool>,
    cap: int,
)
    requires
        emit::whole(z),
        data.len() <= 65535,
        cap >= out.len() + data.len(),
    ensures
        ({
            let b1 = b0 + stored_bits(b0.len() as int, data, last);
            stream::block(z + b1 + ext, (z.len() + b0.len()) as int, out, cap)
                == (stream::Step::Next { p: (z.len() + b1.len()) as int, out: out + data })
        }),
{
    let sb = stored_bits(b0.len() as int, data, last);
    lemma_stored_shift(z.len() as int, b0.len() as int, data, last);
    lemma_stored_read(z + b0, data, last, out, ext, cap);
    assert(z + b0 + sb + ext =~= z + (b0 + sb) + ext);
}

/// A stored block behind `b0` decodes to its data.
pub proof fn lemma_stored_block(b0: Seq<bool>, h: Seq<u8>, from: int, len: int, last: bool)
    requires
        0 <= from,
        0 <= len <= 65535,
        from + len <= h.len(),
    ensures
        ({
            let b1 = b0 + stored_bits(b0.len() as int, h.subrange(from, from + len), last);
            &&& emit::extends(b0, h.take(from), b1, h.take(from + len), last)
            &&& b1.len() == stored_end(b0.len() as int, len)
        }),
{
    let data = h.subrange(from, from + len);
    let out0 = h.take(from);
    let out1 = h.take(from + len);
    let sb = stored_bits(b0.len() as int, data, last);
    let b1 = b0 + sb;
    assert(out0 + data =~= out1);
    lemma_stored_read(b0, data, last, out0, Seq::empty(), out1.len() as int);
    assert forall|z: Seq<bool>, ext: Seq<bool>, cap: int|
        emit::whole(z) && cap >= out1.len() implies #[trigger] stream::block(
        z + b1 + ext,
        (z.len() + b0.len()) as int,
        out0,
        cap,
    ) == (stream::Step::Next { p: (z.len() + b1.len()) as int, out: out1 }) by {
        lemma_stored_anywhere(z, b0, data, last, out0, ext, cap);
    }
    assert(b1.take(b0.len() as int) =~= b0);
    emit::lemma_chain_block(b0, out0, b1, out1, last);
}

/// Write uncompressed block(s), splitting at UINT16_MAX boundaries.
pub fn write_uncompressed_blocks(
    os: &mut OutputBitstream<'_>,
    input: &[u8],
    base: usize,
    block_length: usize,
    is_final_block: bool,
)
    requires
        old(os).flushed(),
        base + block_length <= input@.len(),
        0 < block_length,
    ensures
        final(os).flushed(),
        final(os).buf@.len() == old(os).buf@.len(),
        final(final(os).buf)@ == final(old(os).buf)@,
        old(os).overflow ==> final(os).overflow,
        !final(os).overflow ==> emit::extends(
            old(os).bits(),
            input@.take(base as int),
            final(os).bits(),
            input@.take(base + block_length),
            is_final_block,
        ),
        !final(os).overflow ==> final(os).bits().len() == stored_end(
            old(os).bits().len() as int,
            block_length as int,
        ),
        !final(os).overflow ==> final(os).bits() == with_stored(
            old(os).bits(),
            input@.subrange(base as int, base + block_length),
            is_final_block,
        ),
        !old(os).overflow && stored_end(old(os).bits().len() as int, block_length as int) <= 8
            * old(os).buf@.len() ==> !final(os).overflow,
{
    let ghost fin = final(os.buf)@;
    let ghost b0 = os.bits();
    let ghost end = base + block_length;
    let ghost goal = with_stored(b0, input@.subrange(base as int, end), is_final_block);
    let ghost p0 = b0.len() as int;
    let total: usize = input.len();
    let mut done: usize = 0;
    proof {
        emit::lemma_extends_nothing(b0, input@.take(base as int));
    }
    while done < block_length
        invariant
            done <= block_length,
            0 < block_length,
            total == input@.len(),
            base + block_length <= total,
            os.flushed(),
            os.buf@.len() == old(os).buf@.len(),
            final(os.buf)@ == fin,
            fin == final(old(os).buf)@,
            b0 == old(os).bits(),
            p0 == b0.len(),
            old(os).overflow ==> os.overflow,
            !os.overflow && done < block_length ==> emit::extends(
                b0,
                input@.take(base as int),
                os.bits(),
                input@.take(base + done),
                false,
            ) && stored_end(os.bits().len() as int, block_length - done) == stored_end(
                p0,
                block_length as int,
            ),
            !os.overflow && done == block_length ==> emit::extends(
                b0,
                input@.take(base as int),
                os.bits(),
                input@.take(base + block_length),
                is_final_block,
            ) && os.bits().len() == stored_end(p0, block_length as int),
            end == base + block_length,
            !os.overflow && done < block_length ==> with_stored(
                os.bits(),
                input@.subrange(base + done, end),
                is_final_block,
            ) == goal,
            !os.overflow && done == block_length ==> os.bits() == goal,
            !old(os).overflow && stored_end(p0, block_length as int) <= 8 * os.buf@.len()
                ==> !os.overflow,
        decreases block_length - done,
    {
        let left: usize = block_length - done;
        let len: usize = min_usize(left, 65535);
        let last: bool = is_final_block && left <= 65535;
        let ghost o0 = *os;
        put_stored(os, input, base + done, len, last);
        proof {
            if !os.overflow {
                lemma_stored_block(o0.bits(), input@, base + done, len as int, last);
                emit::lemma_extends_trans(
                    b0,
                    input@.take(base as int),
                    o0.bits(),
                    input@.take(base + done),
                    os.bits(),
                    input@.take(base + done + len),
                    last,
                );
            }
            let rest = input@.subrange(base + done, end);
            if left > 65535 {
                assert(rest.take(65535) =~= input@.subrange(base + done, base + done + len));
                assert(rest.skip(65535) =~= input@.subrange(base + done + len, end));
            }
            lemma_stored_step(o0.bits().len() as int, left as int, len as int);
            lemma_stored_bits_len(
                o0.bits().len() as int,
                input@.subrange(base + done, base + done + len),
                last,
            );
        }
        done = done + len;
    }
}

/// Write one uncompressed block.
#[verifier::spinoff_prover]
#[verifier::rlimit(100)]
pub fn put_stored(
    os: &mut OutputBitstream<'_>,
    input: &[u8],
    from: usize,
    len: usize,
    last: bool,
)
    requires
        old(os).flushed(),
        from + len <= input@.len(),
        len <= 65535,
    ensures
        writer::wrote(
            *old(os),
            *final(os),
            stored_bits(
                old(os).bits().len() as int,
                input@.subrange(from as int, from + len),
                last,
            ),
        ),
        final(final(os).buf)@ == final(old(os).buf)@,
{
    let ghost o0 = *os;
    let ghost p = os.bits().len() as int;
    let ghost data = input@.subrange(from as int, from + len);
    let ghost t = precode::type_bits(last, 0);
    let ghost pad = (stream::align8(p + 3) - (p + 3)) as nat;
    let ghost z = bits::num_bits(0, pad);
    let ghost f1 = bits::num_bits(len as int, 16);
    let ghost f2 = bits::num_bits(65535 - len, 16);
    let ghost f3 = bits::to_bits(data);
    proof {
        precode::lemma_type_read(o0.bits(), last, 0, Seq::empty());
        lemma2_to64();
    }
    put_type(os, last, 0);
    if os.overflow {
        return;
    }
    let ghost o1 = *os;
    let fill: u32 = if os.bitcount == 0 {
        0
    } else {
        8 - os.bitcount
    };
    assert(fill == pad);
    proof {
        lemma_pow2_pos(pad);
    }
    put_bits(os, 0, fill);
    proof {
        bitstream::lemma_keeps_trans(o0, o1, *os);
    }
    if os.overflow {
        return;
    }
    proof {
        writer::lemma_wrote_trans(o0, o1, *os, t, z);
        assert(os.bits().len() == stream::align8(p + 3));
        assert(os.bitcount == 0);
    }
    let ghost o2 = *os;
    os.write_le16(len as u16);
    let ghost o3 = *os;
    os.write_le16(65535 - len as u16);
    let ghost o4 = *os;
    os.write_bytes(input, from, len);
    proof {
        bitstream::lemma_keeps_trans(o0, o2, o3);
        bitstream::lemma_keeps_trans(o0, o3, o4);
        bitstream::lemma_keeps_trans(o0, o4, *os);
        let a = o0.bits();
        if !os.overflow {
            assert(a + (t + z) + f1 + f2 + f3 =~= a + (t + z + f1 + f2 + f3));
        }
    }
}

} // verus!
