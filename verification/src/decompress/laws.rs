//! How decoding a stream depends on the room for output and on what stands before it.

use crate::bits;
use crate::codes;
use crate::container;
use crate::decompress;
use crate::decompress::phases;
use crate::decompress::results;
use crate::decompress::window::WrapperFormat;
use crate::stream;
use vstd::arithmetic::power2::*;
use vstd::prelude::*;

verus! {

/// Codes that a block can have.
pub open spec fn codes_ok(ll: Seq<u8>, ol: Seq<u8>) -> bool {
    &&& codes::bounded(ll)
    &&& codes::decodable(ll)
    &&& 1 <= ll.len() <= 288
    &&& codes::bounded(ol)
    &&& codes::decodable(ol)
    &&& 1 <= ol.len() <= 32
}

/// A symbol is one of the code's.
pub proof fn lemma_sym_range(b: Seq<bool>, lens: Seq<u8>, p: int)
    requires
        codes::bounded(lens),
        codes::decodable(lens),
        lens.len() > 0,
    ensures
        0 <= stream::sym_at(b, lens, p).0 < lens.len(),
        1 <= stream::sym_at(b, lens, p).1 <= 15,
{
    bits::lemma_be_bound(b, p, 15);
    lemma2_to64();
    codes::lemma_next_sym_range(lens, bits::be_val(b, p, 15));
}

/// A match has a length and a distance that matches can have.
pub proof fn lemma_match_range(b: Seq<bool>, ol: Seq<u8>, sym: int, p: int)
    requires
        codes::bounded(ol),
        codes::decodable(ol),
        1 <= ol.len() <= 32,
        256 < sym < 288,
    ensures
        ({
            let (len, dist, q) = stream::match_at(b, ol, sym, p);
            &&& 3 <= len <= 258
            &&& 1 <= dist <= 32768
            &&& q > p
        }),
{
    results::lemma_length_bounds(sym);
    let x = stream::length_extra(sym);
    bits::lemma_le_bound(b, p, x);
    let p1 = p + x;
    lemma_sym_range(b, ol, p1);
    let (os, ob) = stream::sym_at(b, ol, p1);
    results::lemma_offset_bounds(os);
    bits::lemma_le_bound(b, p1 + ob, stream::offset_extra(os));
}

/// The codeword lengths of the precode are small.
pub proof fn lemma_precode_small(b: Seq<bool>, p: int, n: int, k: nat)
    requires
        k <= 19,
    ensures
        stream::precode_lens(b, p, n, k).len() == 19,
        forall|s: int| 0 <= s < 19 ==> #[trigger] stream::precode_lens(b, p, n, k)[s] <= 7,
    decreases k,
{
    if k > 0 {
        lemma_precode_small(b, p, n, (k - 1) as nat);
        bits::lemma_le_bound(b, p + 3 * (k - 1), 3);
        lemma2_to64();
    }
}

/// Codeword lengths that are read are codeword lengths.
proof fn lemma_read_lens_bounded(
    b: Seq<bool>,
    pre: Seq<u8>,
    p: int,
    acc: Seq<u8>,
    total: int,
)
    requires
        codes::bounded(acc),
        codes::bounded(pre),
        codes::decodable(pre),
        pre.len() > 0,
    ensures
        stream::read_lens(b, pre, p, acc, total) matches Some((q, lens)) ==> codes::bounded(lens)
            && lens.len() == total,
    decreases stream::missing(acc.len() as int, total),
{
    if acc.len() < total {
        lemma_sym_range(b, pre, p);
        let (sym, n) = stream::sym_at(b, pre, p);
        let q = p + n;
        bits::lemma_le_bound(b, q, 2);
        bits::lemma_le_bound(b, q, 3);
        bits::lemma_le_bound(b, q, 7);
        if sym < 16 {
            lemma_read_lens_bounded(b, pre, q, acc.push(sym as u8), total);
        } else if sym == 16 {
            if acc.len() > 0 {
                let r = stream::repeat(acc.last(), 3 + bits::le_val(b, q, 2));
                assert(codes::bounded(acc + r));
                lemma_read_lens_bounded(b, pre, q + 2, acc + r, total);
            }
        } else if sym == 17 {
            let r = stream::repeat(0, 3 + bits::le_val(b, q, 3));
            assert(codes::bounded(acc + r));
            lemma_read_lens_bounded(b, pre, q + 3, acc + r, total);
        } else {
            let r = stream::repeat(0, 11 + bits::le_val(b, q, 7));
            assert(codes::bounded(acc + r));
            lemma_read_lens_bounded(b, pre, q + 7, acc + r, total);
        }
    }
}

/// The codes of a block can be decoded.
pub proof fn lemma_block_codes(b: Seq<bool>, p: int)
    ensures
        stream::block_codes(b, p) matches Some((q, ll, ol)) ==> codes_ok(ll, ol) && q > p,
{
    let kind = bits::le_val(b, p + 1, 2);
    if kind == 1 {
        stream::lemma_static_codes();
    } else if kind == 2 {
        let h = p + 3;
        let nl = 257 + bits::le_val(b, h, 5);
        let no = 1 + bits::le_val(b, h + 5, 5);
        let np = 4 + bits::le_val(b, h + 10, 4);
        bits::lemma_le_bound(b, h, 5);
        bits::lemma_le_bound(b, h + 5, 5);
        lemma2_to64();
        let pre = stream::precode_lens(b, h + 14, np, 19);
        lemma_precode_small(b, h + 14, np, 19);
        decompress::lemma_header_advances(b, h);
        if codes::decodable(pre) {
            lemma_read_lens_bounded(b, pre, h + 14 + 3 * np, Seq::empty(), nl + no);
        }
    }
}

/// Literals and matches that decode do so with other room, if it is enough, and with
/// other data before the output.
proof fn lemma_items_history(
    b: Seq<bool>,
    ll: Seq<u8>,
    ol: Seq<u8>,
    p: int,
    out: Seq<u8>,
    cap: int,
    hist: Seq<u8>,
    cap2: int,
)
    requires
        codes_ok(ll, ol),
    ensures
        stream::items(b, ll, ol, p, out, cap) matches stream::Step::Next { p: q, out: o } ==> {
            &&& p < q
            &&& out.len() <= o.len() <= out.len() + 258 * (q - p)
            &&& cap2 >= hist.len() + o.len() ==> stream::items(b, ll, ol, p, hist + out, cap2) == (
            stream::Step::Next { p: q, out: hist + o })
        },
    decreases stream::left(b, p),
{
    if p <= b.len() + stream::overread() {
        lemma_sym_range(b, ll, p);
        let (sym, n) = stream::sym_at(b, ll, p);
        if sym < 256 {
            lemma_items_history(b, ll, ol, p + n, out.push(sym as u8), cap, hist, cap2);
            assert((hist + out).push(sym as u8) =~= hist + out.push(sym as u8));
        } else if sym > 256 {
            lemma_match_range(b, ol, sym, p + n);
            let (len, dist, q) = stream::match_at(b, ol, sym, p + n);
            if len <= cap - out.len() && dist <= out.len() {
                let c = stream::copy_match(out, dist, len as nat);
                phases::lemma_copy_len(out, dist, len as nat);
                phases::lemma_copy_before(hist, out, dist, len as nat);
                lemma_items_history(b, ll, ol, q, c, cap, hist, cap2);
            }
        }
    }
}

/// The same of a block.
pub proof fn lemma_block_history(
    b: Seq<bool>,
    p: int,
    out: Seq<u8>,
    cap: int,
    hist: Seq<u8>,
    cap2: int,
)
    ensures
        stream::block(b, p, out, cap) matches stream::Step::Next { p: q, out: o } ==> {
            &&& p < q
            &&& out.len() <= o.len() <= out.len() + 258 * (q - p)
            &&& cap2 >= hist.len() + o.len() ==> stream::block(b, p, hist + out, cap2) == (
            stream::Step::Next { p: q, out: hist + o })
        },
{
    if bits::le_val(b, p + 1, 2) == 0 {
        let a = stream::align8(p + 3);
        let len = bits::le_val(b, a, 16);
        bits::lemma_le_bound(b, a, 16);
        assert((hist + out) + stream::bytes_at(b, a + 32, len) =~= hist + (out + stream::bytes_at(
            b,
            a + 32,
            len,
        )));
    } else {
        lemma_block_codes(b, p);
        match stream::block_codes(b, p) {
            Some((q, ll, ol)) => {
                lemma_items_history(b, ll, ol, q, out, cap, hist, cap2);
            },
            None => {},
        }
    }
}

/// A stream that decodes does so with other room, if it is enough, and with other
/// data before the output.
pub proof fn law_inflate_history(
    b: Seq<bool>,
    p: int,
    out: Seq<u8>,
    cap: int,
    hist: Seq<u8>,
    cap2: int,
)
    ensures
        stream::inflate(b, p, out, cap) matches stream::Step::Next { p: q, out: o } ==> {
            &&& p < q <= b.len()
            &&& out.len() <= o.len() <= out.len() + 258 * (q - p)
            &&& cap2 >= hist.len() + o.len() ==> stream::inflate(b, p, hist + out, cap2) == (
            stream::Step::Next { p: q, out: hist + o })
        },
    decreases stream::left(b, p),
{
    if p <= b.len() + stream::overread() {
        lemma_block_history(b, p, out, cap, hist, cap2);
        match stream::block(b, p, out, cap) {
            stream::Step::Next { p: q, out: o } => {
                if !stream::is_last(b, p) {
                    law_inflate_history(b, q, o, cap, hist, cap2);
                }
            },
            _ => {},
        }
    }
}

/// What decodes from bit position `8 * h` on is what a streaming decompressor
/// decodes there.
pub proof fn lemma_streams(t: Seq<u8>, h: int, cap: int, q: int, out: Seq<u8>)
    requires
        stream::inflate(bits::to_bits(t), 8 * h, Seq::empty(), cap) == (stream::Step::Next {
            p: q,
            out,
        }),
        0 <= h,
    ensures
        phases::rest_blocks(t, 8 * h, Seq::empty()) == (stream::Step::Next { p: q, out }),
{
    let b = bits::to_bits(t);
    let e = Seq::<u8>::empty();
    law_inflate_history(b, 8 * h, e, cap, e, phases::room(t));
    reveal(phases::rest_blocks);
    assert(e + e =~= e);
    assert(e + out =~= out);
}

/// A raw DEFLATE stream that decompresses as a whole decompresses to the same piece by
/// piece, and one that is bad as a whole is bad piece by piece.
pub proof fn law_stream_parity(t: Seq<u8>, cap: int)
    ensures
        container::deflate(t, cap) is Done ==> phases::streamed(WrapperFormat::Raw, t) == (
        phases::Streamed::Done { out: container::deflate(t, cap)->out, matched: None }),
        container::deflate(t, cap) is BadData && cap <= phases::room(t) ==> phases::streamed(
            WrapperFormat::Raw,
            t,
        ) is BadData,
{
    match stream::inflate_bytes(t, cap) {
        stream::Step::Next { p, out } => {
            lemma_streams(t, 0, cap, p, out);
        },
        stream::Step::Bad => {
            if cap <= phases::room(t) {
                law_inflate_room(bits::to_bits(t), 0, Seq::empty(), cap, phases::room(t));
                reveal(phases::rest_blocks);
            }
        },
        _ => {},
    }
}

/// Where decoding literals and matches does not lack room, more room makes no
/// difference.
proof fn lemma_items_room(
    b: Seq<bool>,
    ll: Seq<u8>,
    ol: Seq<u8>,
    p: int,
    out: Seq<u8>,
    cap: int,
    cap2: int,
)
    requires
        cap <= cap2,
    ensures
        stream::items(b, ll, ol, p, out, cap) !is NoSpace ==> stream::items(
            b,
            ll,
            ol,
            p,
            out,
            cap2,
        ) == stream::items(b, ll, ol, p, out, cap),
    decreases stream::left(b, p),
{
    if p <= b.len() + stream::overread() {
        let (sym, n) = stream::sym_at(b, ll, p);
        if n >= 1 {
            if sym < 256 {
                lemma_items_room(b, ll, ol, p + n, out.push(sym as u8), cap, cap2);
            } else if sym > 256 {
                let (len, dist, q) = stream::match_at(b, ol, sym, p + n);
                if q > p {
                    lemma_items_room(
                        b,
                        ll,
                        ol,
                        q,
                        stream::copy_match(out, dist, len as nat),
                        cap,
                        cap2,
                    );
                }
            }
        }
    }
}

/// Where decoding does not lack room, more room makes no difference.
pub proof fn law_inflate_room(b: Seq<bool>, p: int, out: Seq<u8>, cap: int, cap2: int)
    requires
        cap <= cap2,
    ensures
        stream::inflate(b, p, out, cap) !is NoSpace ==> stream::inflate(b, p, out, cap2)
            == stream::inflate(b, p, out, cap),
    decreases stream::left(b, p),
{
    if p <= b.len() + stream::overread() {
        match stream::block_codes(b, p) {
            Some((q, ll, ol)) => {
                lemma_items_room(b, ll, ol, q, out, cap, cap2);
            },
            None => {},
        }
        assert(stream::block(b, p, out, cap) !is NoSpace ==> stream::block(b, p, out, cap2)
            == stream::block(b, p, out, cap));
        match stream::block(b, p, out, cap) {
            stream::Step::Next { p: q, out: o } => {
                if !stream::is_last(b, p) && q > p {
                    law_inflate_room(b, q, o, cap, cap2);
                }
            },
            _ => {},
        }
    }
}

/// Where unwrapping a stream does not lack room, more room makes no difference.
pub proof fn law_unwrap_room(data: Seq<u8>, cap: int, cap2: int)
    requires
        cap <= cap2,
    ensures
        container::deflate(data, cap) !is NoSpace ==> container::deflate(data, cap2)
            == container::deflate(data, cap),
        container::zlib(data, cap) !is NoSpace ==> container::zlib(data, cap2) == container::zlib(
            data,
            cap,
        ),
        container::gzip(data, cap) !is NoSpace ==> container::gzip(data, cap2) == container::gzip(
            data,
            cap,
        ),
{
    law_inflate_room(bits::to_bits(data), 0, Seq::empty(), cap, cap2);
    if container::zlib_header(data) {
        let d = data.subrange(2, data.len() - 4);
        law_inflate_room(bits::to_bits(d), 0, Seq::empty(), cap, cap2);
    }
    match container::gzip_header(data) {
        Some(h) => {
            let d = data.subrange(h, data.len() - 8);
            law_inflate_room(bits::to_bits(d), 0, Seq::empty(), cap, cap2);
        },
        None => {},
    }
}

} // verus!
