//! What is left to decode at each point of a stream.
//!
//! A streaming decompressor stops wherever its buffer is full. At each such point
//! these functions say what decoding the rest of the stream gives.

use crate::bits;
use crate::container;
use crate::decompress;
use crate::decompress::decode;
use crate::decompress::window;
use crate::decompress::window::WrapperFormat;
use crate::fast_bytes;
use crate::stream;
use vstd::prelude::*;

verus! {

/// More room than the stream `t` can take.
pub open spec fn room(t: Seq<u8>) -> int {
    258 * (8 * t.len() as int + 600)
}

/// What decoding blocks from bit position `p` on gives.
#[verifier::opaque]
pub open spec fn rest_blocks(t: Seq<u8>, p: int, out: Seq<u8>) -> stream::Step {
    stream::inflate(bits::to_bits(t), p, out, room(t))
}

/// What decoding gives behind a block that ends at bit position `p`.
pub open spec fn rest_after(t: Seq<u8>, last: bool, p: int, out: Seq<u8>) -> stream::Step {
    if last {
        if p > 8 * t.len() {
            stream::Step::Bad
        } else {
            stream::Step::Next { p, out }
        }
    } else {
        rest_blocks(t, p, out)
    }
}

/// What decoding gives behind a part of a block.
pub open spec fn rest_step(t: Seq<u8>, last: bool, s: stream::Step) -> stream::Step {
    match s {
        stream::Step::Next { p, out } => rest_after(t, last, p, out),
        e => e,
    }
}

/// What decoding gives from among the literals and matches of a block.
#[verifier::opaque]
pub open spec fn rest_items(
    t: Seq<u8>,
    last: bool,
    ll: Seq<u8>,
    ol: Seq<u8>,
    p: int,
    out: Seq<u8>,
) -> stream::Step {
    rest_step(t, last, stream::items(bits::to_bits(t), ll, ol, p, out, room(t)))
}

/// What decoding gives where `n` more stored bytes are to come.
pub open spec fn rest_stored(t: Seq<u8>, last: bool, p: int, n: int, out: Seq<u8>) -> stream::Step {
    if p + 8 * n > 8 * t.len() {
        stream::Step::Bad
    } else {
        rest_after(t, last, p + 8 * n, out + stream::bytes_at(bits::to_bits(t), p, n))
    }
}

/// The output where decoding the block at bit position `p` piece by piece comes to no end:
/// the stored bytes that are there, or what the literals and matches give.
pub open spec fn stalled(t: Seq<u8>, p: int, out: Seq<u8>) -> Seq<u8> {
    let b = bits::to_bits(t);
    if bits::le_val(b, p + 1, 2) == 0 {
        let q = stream::align8(p + 3);
        let len = bits::le_val(b, q, 16);
        let nlen = bits::le_val(b, q + 16, 16);
        if q + 32 > 8 * t.len() || len + nlen != 65535 {
            out
        } else {
            seen_stored_cut(t, q + 32, out)
        }
    } else {
        match stream::block_codes(b, p) {
            None => out,
            Some((q, ll, ol)) => stream::items_seen(b, ll, ol, q, out, room(t)),
        }
    }
}

/// The output with all stored bytes from bit position `p` to the end of the data.
pub open spec fn seen_stored_cut(t: Seq<u8>, p: int, out: Seq<u8>) -> Seq<u8> {
    out + stream::bytes_at(bits::to_bits(t), p, t.len() - p / 8)
}

/// The output when decoding blocks from bit position `p` on piece by piece stops, for
/// whatever reason.
#[verifier::opaque]
pub open spec fn seen_blocks(t: Seq<u8>, p: int, out: Seq<u8>) -> Seq<u8>
    decreases stream::left(bits::to_bits(t), p),
{
    let b = bits::to_bits(t);
    if p > b.len() + stream::overread() {
        out
    } else {
        match stream::block(b, p, out, room(t)) {
            stream::Step::Next { p: q, out: o } => {
                if stream::is_last(b, p) || q <= p {
                    o
                } else {
                    seen_blocks(t, q, o)
                }
            },
            _ => stalled(t, p, out),
        }
    }
}

/// The output when decoding stops, behind a block that ends at bit position `p`.
pub open spec fn seen_after(t: Seq<u8>, last: bool, p: int, out: Seq<u8>) -> Seq<u8> {
    if last {
        out
    } else {
        seen_blocks(t, p, out)
    }
}

/// The output when decoding stops, from among the literals and matches of a block.
#[verifier::opaque]
pub open spec fn seen_items(
    t: Seq<u8>,
    last: bool,
    ll: Seq<u8>,
    ol: Seq<u8>,
    p: int,
    out: Seq<u8>,
) -> Seq<u8> {
    match stream::items(bits::to_bits(t), ll, ol, p, out, room(t)) {
        stream::Step::Next { p: q, out: o } => seen_after(t, last, q, o),
        _ => stream::items_seen(bits::to_bits(t), ll, ol, p, out, room(t)),
    }
}

/// The output when decoding stops, where `n` more stored bytes are to come.
pub open spec fn seen_stored(t: Seq<u8>, last: bool, p: int, n: int, out: Seq<u8>) -> Seq<u8> {
    if p + 8 * n > 8 * t.len() {
        seen_stored_cut(t, p, out)
    } else {
        seen_after(t, last, p + 8 * n, out + stream::bytes_at(bits::to_bits(t), p, n))
    }
}

/// The bytes begin with others.
pub open spec fn begins_with(s: Seq<u8>, a: Seq<u8>) -> bool {
    a.len() <= s.len() && s.take(a.len() as int) == a
}

/// Beginning with something goes on.
pub proof fn lemma_begins(a: Seq<u8>, b: Seq<u8>, c: Seq<u8>)
    requires
        begins_with(b, a),
        begins_with(c, b),
    ensures
        begins_with(c, a),
{
    assert(c.take(a.len() as int) =~= c.take(b.len() as int).take(a.len() as int));
}

/// Literals and matches add to the output.
pub proof fn lemma_items_begins(
    b: Seq<bool>,
    ll: Seq<u8>,
    ol: Seq<u8>,
    p: int,
    out: Seq<u8>,
    cap: int,
)
    ensures
        begins_with(stream::items_seen(b, ll, ol, p, out, cap), out),
        stream::items(b, ll, ol, p, out, cap) matches stream::Step::Next { p: q, out: o } ==> o
            == stream::items_seen(b, ll, ol, p, out, cap),
    decreases stream::left(b, p),
{
    let (sym, n) = stream::sym_at(b, ll, p);
    let (len, dist, q) = stream::match_at(b, ol, sym, p + n);
    assert(out.take(out.len() as int) =~= out);
    if p > b.len() + stream::overread() || n < 1 || sym == 256 {
    } else if sym < 256 {
        if out.len() < cap {
            let o = out.push(sym as u8);
            lemma_items_begins(b, ll, ol, p + n, o, cap);
            assert(o.take(out.len() as int) =~= out);
            lemma_begins(out, o, stream::items_seen(b, ll, ol, p + n, o, cap));
        }
    } else if len > cap - out.len() || dist > out.len() || q <= p {
    } else {
        let o = stream::copy_match(out, dist, len as nat);
        lemma_copy_len(out, dist, len as nat);
        lemma_items_begins(b, ll, ol, q, o, cap);
        assert(o.take(out.len() as int) =~= out);
        lemma_begins(out, o, stream::items_seen(b, ll, ol, q, o, cap));
    }
}

/// A block adds to the output.
proof fn lemma_block_begins(t: Seq<u8>, p: int, out: Seq<u8>)
    ensures
        stream::block(bits::to_bits(t), p, out, room(t)) matches stream::Step::Next { p: q, out: o }
            ==> begins_with(o, out),
        begins_with(stalled(t, p, out), out),
{
    let b = bits::to_bits(t);
    assert(out.take(out.len() as int) =~= out);
    if bits::le_val(b, p + 1, 2) == 0 {
        let d = stream::align8(p + 3) + 32;
        let len = bits::le_val(b, stream::align8(p + 3), 16);
        let s1 = stream::bytes_at(b, d, len);
        let s2 = stream::bytes_at(b, d, t.len() - d / 8);
        assert((out + s1).take(out.len() as int) =~= out);
        assert((out + s2).take(out.len() as int) =~= out);
    } else {
        match stream::block_codes(b, p) {
            None => {},
            Some((q, ll, ol)) => {
                lemma_items_begins(b, ll, ol, q, out, room(t));
            },
        }
    }
}

/// Decoding adds to the output.
pub proof fn lemma_seen_begins(t: Seq<u8>, p: int, out: Seq<u8>)
    ensures
        begins_with(seen_blocks(t, p, out), out),
    decreases stream::left(bits::to_bits(t), p),
{
    let b = bits::to_bits(t);
    reveal(seen_blocks);
    assert(out.take(out.len() as int) =~= out);
    if p <= b.len() + stream::overread() {
        lemma_block_begins(t, p, out);
        match stream::block(b, p, out, room(t)) {
            stream::Step::Next { p: q, out: o } => {
                if !stream::is_last(b, p) && q > p {
                    lemma_seen_begins(t, q, o);
                    lemma_begins(out, o, seen_blocks(t, q, o));
                }
            },
            _ => {},
        }
    }
}

/// What is decoded from among the literals and matches of a block adds to the output.
pub proof fn lemma_seen_items_begins(
    t: Seq<u8>,
    last: bool,
    ll: Seq<u8>,
    ol: Seq<u8>,
    p: int,
    out: Seq<u8>,
)
    ensures
        begins_with(seen_items(t, last, ll, ol, p, out), out),
{
    let b = bits::to_bits(t);
    reveal(seen_items);
    lemma_items_begins(b, ll, ol, p, out, room(t));
    match stream::items(b, ll, ol, p, out, room(t)) {
        stream::Step::Next { p: q, out: o } => {
            lemma_seen_begins(t, q, o);
            assert(o.take(o.len() as int) =~= o);
            lemma_begins(out, o, seen_after(t, last, q, o));
        },
        _ => {},
    }
}

/// What is stored adds to the output.
pub proof fn lemma_seen_stored_begins(t: Seq<u8>, last: bool, p: int, n: int, out: Seq<u8>)
    ensures
        begins_with(seen_stored(t, last, p, n, out), out),
{
    let b = bits::to_bits(t);
    if p + 8 * n > 8 * t.len() {
        let s = stream::bytes_at(b, p, t.len() - p / 8);
        assert((out + s).take(out.len() as int) =~= out);
    } else {
        let o = out + stream::bytes_at(b, p, n);
        assert(o.take(out.len() as int) =~= out);
        assert(o.take(o.len() as int) =~= o);
        lemma_seen_begins(t, p + 8 * n, o);
        lemma_begins(out, o, seen_after(t, last, p + 8 * n, o));
    }
}

/// Where decoding comes to the end, the output is all that was decoded.
pub proof fn lemma_seen_all(t: Seq<u8>, p: int, out: Seq<u8>)
    ensures
        rest_blocks(t, p, out) matches stream::Step::Next { p: q, out: o } ==> seen_blocks(
            t,
            p,
            out,
        ) == o,
    decreases stream::left(bits::to_bits(t), p),
{
    let b = bits::to_bits(t);
    reveal(rest_blocks);
    reveal(seen_blocks);
    if p <= b.len() + stream::overread() {
        match stream::block(b, p, out, room(t)) {
            stream::Step::Next { p: q, out: o } => {
                if !stream::is_last(b, p) && q > p {
                    lemma_seen_all(t, q, o);
                }
            },
            _ => {},
        }
    }
}

/// Decoding goes on with the literals and matches of a block.
pub proof fn lemma_rest_coded(t: Seq<u8>, p: int, out: Seq<u8>, q: int, ll: Seq<u8>, ol: Seq<u8>)
    requires
        0 <= p <= 8 * t.len() + stream::overread(),
        stream::block_codes(bits::to_bits(t), p) == Some((q, ll, ol)),
        p < q,
    ensures
        rest_blocks(t, p, out) == rest_items(
            t,
            stream::is_last(bits::to_bits(t), p),
            ll,
            ol,
            q,
            out,
        ),
        seen_blocks(t, p, out) == seen_items(
            t,
            stream::is_last(bits::to_bits(t), p),
            ll,
            ol,
            q,
            out,
        ),
{
    let b = bits::to_bits(t);
    reveal(rest_blocks);
    reveal(rest_items);
    reveal(seen_blocks);
    reveal(seen_items);
    decompress::lemma_items_advance(b, ll, ol, q, out, room(t));
}

/// Where a block is bad, so is the stream.
pub proof fn lemma_rest_bad(t: Seq<u8>, p: int, out: Seq<u8>)
    requires
        0 <= p,
        p > 8 * t.len() + stream::overread() || (bits::le_val(bits::to_bits(t), p + 1, 2) != 0 && (
        stream::block_codes(bits::to_bits(t), p) matches Some((q, ll, ol)) ==> q > 8 * t.len()
            + stream::overread())),
    ensures
        rest_blocks(t, p, out) is Bad,
        seen_blocks(t, p, out) == out,
{
    reveal(rest_blocks);
    reveal(seen_blocks);
    match stream::block_codes(bits::to_bits(t), p) {
        Some((q, ll, ol)) => {},
        None => {},
    }
}

/// Decoding goes on with the bytes of a stored block.
pub proof fn lemma_rest_stored(t: Seq<u8>, p: int, out: Seq<u8>)
    requires
        0 <= p <= 8 * t.len() + stream::overread(),
        bits::le_val(bits::to_bits(t), p + 1, 2) == 0,
        out.len() + 65535 <= room(t),
    ensures
        ({
            let b = bits::to_bits(t);
            let q = stream::align8(p + 3);
            let len = bits::le_val(b, q, 16);
            let nlen = bits::le_val(b, q + 16, 16);
            &&& rest_blocks(t, p, out) == if q + 32 > 8 * t.len() || len + nlen != 65535 {
                stream::Step::Bad
            } else {
                rest_stored(t, stream::is_last(b, p), q + 32, len, out)
            }
            &&& seen_blocks(t, p, out) == if q + 32 > 8 * t.len() || len + nlen != 65535 {
                out
            } else {
                seen_stored(t, stream::is_last(b, p), q + 32, len, out)
            }
            &&& p < q
        }),
{
    let b = bits::to_bits(t);
    reveal(rest_blocks);
    reveal(seen_blocks);
    bits::lemma_le_bound(b, stream::align8(p + 3), 16);
    vstd::arithmetic::power2::lemma2_to64();
    decompress::lemma_block_advances(b, p, out, room(t));
}

/// One more stored byte.
pub proof fn lemma_rest_byte(t: Seq<u8>, last: bool, p: int, n: int, out: Seq<u8>)
    requires
        0 <= p,
        p % 8 == 0,
        0 < n,
    ensures
        p >= 8 * t.len() ==> rest_stored(t, last, p, n, out) is Bad,
        p < 8 * t.len() ==> rest_stored(t, last, p, n, out) == rest_stored(
            t,
            last,
            p + 8,
            n - 1,
            out.push(t[p / 8]),
        ),
        p == 8 * t.len() ==> seen_stored(t, last, p, n, out) == out,
        p < 8 * t.len() ==> seen_stored(t, last, p, n, out) == seen_stored(
            t,
            last,
            p + 8,
            n - 1,
            out.push(t[p / 8]),
        ),
{
    let b = bits::to_bits(t);
    if p == 8 * t.len() {
        assert(seen_stored_cut(t, p, out) =~= out);
    }
    if p < 8 * t.len() && p + 8 * n > 8 * t.len() {
        bits::lemma_to_bits_byte(t, p / 8);
        assert((p + 8) / 8 == p / 8 + 1);
        assert(seen_stored_cut(t, p, out) =~= seen_stored_cut(t, p + 8, out.push(t[p / 8])));
    }
    if p + 8 * n <= 8 * t.len() {
        bits::lemma_to_bits_byte(t, p / 8);
        assert(out + stream::bytes_at(b, p, n) =~= out.push(t[p / 8]) + stream::bytes_at(
            b,
            p + 8,
            n - 1,
        ));
    }
}

/// No more stored bytes.
pub proof fn lemma_rest_no_byte(t: Seq<u8>, last: bool, p: int, out: Seq<u8>)
    requires
        0 <= p <= 8 * t.len(),
    ensures
        rest_stored(t, last, p, 0, out) == rest_after(t, last, p, out),
        seen_stored(t, last, p, 0, out) == seen_after(t, last, p, out),
{
    assert(out + stream::bytes_at(bits::to_bits(t), p, 0) =~= out);
}

/// One more literal or match, or the end of the block.
pub proof fn lemma_rest_item(
    t: Seq<u8>,
    last: bool,
    ll: Seq<u8>,
    ol: Seq<u8>,
    p: int,
    out: Seq<u8>,
    item: decode::Item,
    q: int,
)
    requires
        p <= 8 * t.len() + stream::overread(),
        decode::item_at(bits::to_bits(t), ll, ol, p, item, q),
        out.len() + 258 <= room(t),
    ensures
        rest_items(t, last, ll, ol, p, out) == match item {
            decode::Item::Literal(v) => rest_items(t, last, ll, ol, q, out.push(v)),
            decode::Item::End => rest_after(t, last, q, out),
            decode::Item::Match { length, offset } => if offset > out.len() {
                stream::Step::Bad
            } else {
                rest_items(
                    t,
                    last,
                    ll,
                    ol,
                    q,
                    stream::copy_match(out, offset as int, length as nat),
                )
            },
        },
        seen_items(t, last, ll, ol, p, out) == match item {
            decode::Item::Literal(v) => seen_items(t, last, ll, ol, q, out.push(v)),
            decode::Item::End => seen_after(t, last, q, out),
            decode::Item::Match { length, offset } => if offset > out.len() {
                out
            } else {
                seen_items(
                    t,
                    last,
                    ll,
                    ol,
                    q,
                    stream::copy_match(out, offset as int, length as nat),
                )
            },
        },
{
    reveal(rest_items);
    reveal(seen_items);
}

/// Too far past the end of the data nothing can be decoded.
pub proof fn lemma_rest_past(
    t: Seq<u8>,
    last: bool,
    ll: Seq<u8>,
    ol: Seq<u8>,
    p: int,
    out: Seq<u8>,
)
    requires
        p > 8 * t.len() + stream::overread(),
    ensures
        rest_items(t, last, ll, ol, p, out) is Bad,
        rest_blocks(t, p, out) is Bad,
        seen_items(t, last, ll, ol, p, out) == out,
        seen_blocks(t, p, out) == out,
{
    reveal(rest_items);
    reveal(rest_blocks);
    reveal(seen_items);
    reveal(seen_blocks);
}

/// A match in two parts.
pub proof fn lemma_copy_parts(out: Seq<u8>, dist: int, a: nat, b: nat)
    ensures
        stream::copy_match(out, dist, a + b) == stream::copy_match(
            stream::copy_match(out, dist, a),
            dist,
            b,
        ),
        stream::copy_match(out, dist, a).len() == out.len() + a,
    decreases b,
{
    lemma_copy_len(out, dist, a);
    if b > 0 {
        lemma_copy_parts(out, dist, a, (b - 1) as nat);
        assert(a + b - 1 == a + (b - 1) as nat);
    }
}

/// A match adds its length.
pub proof fn lemma_copy_len(out: Seq<u8>, dist: int, n: nat)
    ensures
        stream::copy_match(out, dist, n).len() == out.len() + n,
        forall|i: int|
            0 <= i < out.len() ==> #[trigger] stream::copy_match(out, dist, n)[i] == out[i],
    decreases n,
{
    if n > 0 {
        lemma_copy_len(out, dist, (n - 1) as nat);
    }
}

/// A match that does not reach further back than `s` does not depend on what comes
/// before it.
pub proof fn lemma_copy_before(a: Seq<u8>, s: Seq<u8>, dist: int, n: nat)
    requires
        1 <= dist <= s.len(),
    ensures
        stream::copy_match(a + s, dist, n) == a + stream::copy_match(s, dist, n),
    decreases n,
{
    lemma_copy_len(s, dist, n);
    if n > 0 {
        lemma_copy_before(a, s, dist, (n - 1) as nat);
        lemma_copy_len(s, dist, (n - 1) as nat);
        let o = stream::copy_match(s, dist, (n - 1) as nat);
        assert((a + o)[(a + o).len() - dist] == o[o.len() - dist]);
        assert((a + o).push(o[o.len() - dist]) =~= a + o.push(o[o.len() - dist]));
    }
}

/// The first bytes of a stream, as many as are looked at for its header.
pub open spec fn first_bytes(t: Seq<u8>) -> Seq<u8> {
    if t.len() <= 512 {
        t
    } else {
        t.take(512)
    }
}

/// The position after a zero-terminated string at `pos`.
pub open spec fn string_end(d: Seq<u8>, pos: int) -> Option<int> {
    let z = container::zero_from(d, pos);
    if z >= d.len() {
        None
    } else {
        Some(z + 1)
    }
}

/// The position after the extra field of a gzip header, where there is one.
pub open spec fn extra_end(d: Seq<u8>, pos: int) -> Option<int> {
    if (d[3] / 4) % 2 == 0 {
        Some(pos)
    } else if pos + 2 > d.len() || pos + 2 + d[pos] + 256 * d[pos + 1] > d.len() {
        None
    } else {
        Some(pos + 2 + d[pos] + 256 * d[pos + 1])
    }
}

/// The position after the file name of a gzip header, where there is one.
pub open spec fn name_end(d: Seq<u8>, pos: int) -> Option<int> {
    if (d[3] / 8) % 2 == 0 {
        Some(pos)
    } else {
        string_end(d, pos)
    }
}

/// The position after the comment of a gzip header, where there is one.
pub open spec fn comment_end(d: Seq<u8>, pos: int) -> Option<int> {
    if (d[3] / 16) % 2 == 0 {
        Some(pos)
    } else {
        string_end(d, pos)
    }
}

/// The position after the checksum of a gzip header, where there is one.
pub open spec fn hcrc_end(d: Seq<u8>, pos: int) -> Option<int> {
    if (d[3] / 2) % 2 == 0 {
        Some(pos)
    } else if pos + 2 > d.len() {
        None
    } else {
        Some(pos + 2)
    }
}

/// The length of a valid gzip header that lies within the bytes `d`.
pub open spec fn gzip_header(d: Seq<u8>) -> Option<int> {
    if d.len() < 10 || d[0] != 0x1F || d[1] != 0x8B || d[2] != 8 || d[3] >= 32 {
        None
    } else {
        match extra_end(d, 10) {
            None => None,
            Some(a) => match name_end(d, a) {
                None => None,
                Some(b) => match comment_end(d, b) {
                    None => None,
                    Some(c) => hcrc_end(d, c),
                },
            },
        }
    }
}

/// The bytes start with a valid zlib header.
pub open spec fn zlib_header(d: Seq<u8>) -> bool {
    &&& d.len() >= 2
    &&& (256 * d[0] + d[1]) % 31 == 0
    &&& d[0] % 16 == 8
    &&& d[0] / 16 <= 7
    &&& (d[1] / 32) % 2 == 0
}

/// The length of the header of a stream, if it is valid.
pub open spec fn header_len(format: WrapperFormat, t: Seq<u8>) -> Option<int> {
    match format {
        WrapperFormat::Raw => Some(0),
        WrapperFormat::Zlib => if zlib_header(first_bytes(t)) {
            Some(2)
        } else {
            None
        },
        WrapperFormat::Gzip => gzip_header(first_bytes(t)),
    }
}

/// The length of the footer of a stream.
pub open spec fn footer_len(format: WrapperFormat) -> int {
    match format {
        WrapperFormat::Raw => 0,
        WrapperFormat::Zlib => 4,
        WrapperFormat::Gzip => 8,
    }
}

/// The footer at `f` agrees with the output.
pub open spec fn footer_matches(format: WrapperFormat, t: Seq<u8>, f: int, out: Seq<u8>) -> bool {
    match format {
        WrapperFormat::Raw => true,
        WrapperFormat::Zlib => container::be32(t, f) == window::sum_of(format, out),
        WrapperFormat::Gzip => fast_bytes::le32(t, f) == window::sum_of(format, out)
            && fast_bytes::le32(t, f + 4) == out.len() as int % 0x1_0000_0000,
    }
}

/// The outcome of decoding a stream piece by piece.
#[verifier::ext_equal]
pub enum Streamed {
    /// The stream holds `out`; if it has a footer, `matched` tells if it agrees.
    Done { out: Seq<u8>, matched: Option<bool> },
    /// The header is invalid.
    BadHeader,
    /// The DEFLATE data is invalid, or the footer is cut off.
    BadData,
}

/// The outcome behind the last block, at bit position `p`.
pub open spec fn footed(
    format: WrapperFormat,
    t: Seq<u8>,
    p: int,
    out: Seq<u8>,
) -> Streamed {
    let f = stream::bytes_for(p);
    if format == WrapperFormat::Raw {
        Streamed::Done { out, matched: None }
    } else if f + footer_len(format) > t.len() {
        Streamed::BadData
    } else {
        Streamed::Done { out, matched: Some(footer_matches(format, t, f, out)) }
    }
}

/// What the stream `t` means.
pub open spec fn streamed(format: WrapperFormat, t: Seq<u8>) -> Streamed {
    match header_len(format, t) {
        None => Streamed::BadHeader,
        Some(h) => match rest_blocks(t, 8 * h, Seq::empty()) {
            stream::Step::Next { p, out } => footed(format, t, p, out),
            _ => Streamed::BadData,
        },
    }
}

/// The output when decoding the stream `t` piece by piece stops, for whatever reason.
pub open spec fn decoded(format: WrapperFormat, t: Seq<u8>) -> Seq<u8> {
    match header_len(format, t) {
        None => Seq::empty(),
        Some(h) => seen_blocks(t, 8 * h, Seq::empty()),
    }
}

/// A stream that is in order holds all that was decoded.
pub proof fn law_decoded(format: WrapperFormat, t: Seq<u8>)
    ensures
        streamed(format, t) matches Streamed::Done { out, matched } ==> decoded(format, t) == out,
{
    match header_len(format, t) {
        None => {},
        Some(h) => {
            lemma_seen_all(t, 8 * h, Seq::empty());
        },
    }
}

} // verus!
