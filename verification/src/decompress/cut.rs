//! What is decoded of a stream that is cut off or goes wrong: all that comes before.

use crate::bits;
use crate::decompress::laws;
use crate::decompress::phases;
use crate::decompress::window::WrapperFormat;
use crate::grammar;
use crate::grammar::{Block, Item};
use crate::stream;
use vstd::prelude::*;

verus! {

/// Blocks stand at `p`, one after the other, none of them the last one of the stream.
pub open spec fn open_at(b: Seq<bool>, p: int, ks: Seq<Block>, out: Seq<u8>) -> bool
    decreases ks.len(),
{
    ks.len() == 0 || {
        &&& grammar::block_at(b, p, false, ks[0], out)
        &&& open_at(
            b,
            grammar::block_end(p, ks[0]),
            ks.drop_first(),
            grammar::block_out(out, ks[0]),
        )
    }
}

/// A block adds no more than so many bytes for each of its bits.
proof fn lemma_block_room(b: Seq<bool>, p: int, last: bool, k: Block, out: Seq<u8>)
    requires
        grammar::block_at(b, p, last, k, out),
        out.len() <= 258 * p,
    ensures
        out.len() <= grammar::block_out(out, k).len() <= 258 * grammar::block_end(p, k),
        p < grammar::block_end(p, k) <= b.len(),
{
    let o = grammar::block_out(out, k);
    let cap = o.len() as int;
    grammar::law_block_decodes(b, p, last, k, out, cap);
    laws::lemma_block_history(b, p, out, cap, Seq::empty(), cap);
}

/// Whole blocks that come first are decoded piece by piece, whatever follows them: more
/// blocks, bytes that are no DEFLATE data, or nothing.
pub proof fn law_blocks_before_a_cut(t: Seq<u8>, p: int, ks: Seq<Block>, out: Seq<u8>)
    requires
        0 <= p,
        out.len() <= 258 * p,
        open_at(bits::to_bits(t), p, ks, out),
    ensures
        phases::begins_with(phases::seen_blocks(t, p, out), grammar::blocks_out(out, ks)),
    decreases ks.len(),
{
    let b = bits::to_bits(t);
    if ks.len() == 0 {
        phases::lemma_seen_begins(t, p, out);
    } else {
        let q = grammar::block_end(p, ks[0]);
        let o = grammar::block_out(out, ks[0]);
        lemma_block_room(b, p, false, ks[0], out);
        grammar::law_block_decodes(b, p, false, ks[0], out, phases::room(t));
        reveal(phases::seen_blocks);
        law_blocks_before_a_cut(t, q, ks.drop_first(), o);
    }
}

/// Literals and matches that come first in a block are decoded, whatever follows them.
proof fn lemma_items_before(
    b: Seq<bool>,
    ll: Seq<u8>,
    ol: Seq<u8>,
    p: int,
    its: Seq<Item>,
    out: Seq<u8>,
    cap: int,
)
    requires
        0 <= p,
        grammar::allowed(ll),
        grammar::allowed(ol),
        ll.len() <= 288,
        ol.len() <= 32,
        grammar::items_at(b, ll, ol, p, its, out),
        grammar::all_played(out, its).len() <= cap,
    ensures
        phases::begins_with(
            stream::items_seen(b, ll, ol, p, out, cap),
            grammar::all_played(out, its),
        ),
    decreases its.len(),
{
    if its.len() == 0 {
        phases::lemma_items_begins(b, ll, ol, p, out, cap);
    } else {
        let rest = its.drop_first();
        let o = grammar::played(out, its[0]);
        let q = p + grammar::item_len(ll, ol, its[0]);
        grammar::lemma_played_len(o, rest);
        match its[0] {
            Item::Byte { v } => {
                grammar::law_symbol_read(b, ll, p, v as int);
            },
            Item::Copy { ls, lx, os, ox } => {
                grammar::lemma_copy_read(b, ll, ol, p, ls, lx, os, ox);
                grammar::lemma_copy(
                    out,
                    grammar::distance_of(os, ox),
                    grammar::length_of(ls, lx) as nat,
                );
            },
        }
        lemma_items_before(b, ll, ol, q, rest, o, cap);
    }
}

/// Whole literals and matches that come first in a block are decoded piece by piece, whatever
/// follows them.
pub proof fn law_items_before_a_cut(
    t: Seq<u8>,
    p: int,
    q: int,
    ll: Seq<u8>,
    ol: Seq<u8>,
    its: Seq<Item>,
    out: Seq<u8>,
)
    requires
        0 <= p <= 8 * t.len(),
        stream::block_codes(bits::to_bits(t), p) == Some((q, ll, ol)),
        grammar::items_at(bits::to_bits(t), ll, ol, q, its, out),
        grammar::all_played(out, its).len() <= phases::room(t),
    ensures
        phases::begins_with(phases::seen_blocks(t, p, out), grammar::all_played(out, its)),
{
    let b = bits::to_bits(t);
    let cap = phases::room(t);
    laws::lemma_block_codes(b, p);
    grammar::law_codes_allowed(ll);
    grammar::law_codes_allowed(ol);
    lemma_items_before(b, ll, ol, q, its, out, cap);
    phases::lemma_items_begins(b, ll, ol, q, out, cap);
    reveal(phases::seen_blocks);
    let seen = stream::items_seen(b, ll, ol, q, out, cap);
    let a = grammar::all_played(out, its);
    match stream::block(b, p, out, cap) {
        stream::Step::Next { p: e, out: o } => {
            assert(o == seen);
            if !stream::is_last(b, p) && e > p {
                phases::lemma_seen_begins(t, e, o);
                phases::lemma_begins(a, o, phases::seen_blocks(t, e, o));
            }
        },
        _ => {},
    }
}

/// Into a buffer, whole blocks that come first are decoded too, if they fit, whatever follows
/// them; what is behind the output stays as it was.
pub proof fn law_blocks_before_an_error(
    b: Seq<bool>,
    p: int,
    ks: Seq<Block>,
    out: Seq<u8>,
    cap: int,
)
    requires
        0 <= p,
        open_at(b, p, ks, out),
        grammar::blocks_out(out, ks).len() <= cap,
    ensures
        phases::begins_with(stream::inflate_seen(b, p, out, cap), grammar::blocks_out(out, ks)),
    decreases ks.len(),
{
    if ks.len() == 0 {
        lemma_inflate_seen_begins(b, p, out, cap);
    } else {
        let q = grammar::block_end(p, ks[0]);
        let o = grammar::block_out(out, ks[0]);
        grammar::lemma_blocks_len(o, ks.drop_first());
        grammar::law_block_decodes(b, p, false, ks[0], out, cap);
        law_blocks_before_an_error(b, q, ks.drop_first(), o, cap);
    }
}

/// Decoding into a buffer adds to the output.
proof fn lemma_inflate_seen_begins(b: Seq<bool>, p: int, out: Seq<u8>, cap: int)
    ensures
        phases::begins_with(stream::inflate_seen(b, p, out, cap), out),
    decreases stream::left(b, p),
{
    assert(out.take(out.len() as int) =~= out);
    if p <= b.len() + stream::overread() {
        match stream::block_codes(b, p) {
            Some((q, ll, ol)) => {
                phases::lemma_items_begins(b, ll, ol, q, out, cap);
            },
            None => {},
        }
        let x = stream::align8(p + 3);
        let s = stream::bytes_at(b, x + 32, bits::le_val(b, x, 16));
        assert((out + s).take(out.len() as int) =~= out);
        match stream::block(b, p, out, cap) {
            stream::Step::Next { p: q, out: o } => {
                assert(phases::begins_with(o, out));
                if !stream::is_last(b, p) && q > p {
                    lemma_inflate_seen_begins(b, q, o, cap);
                    phases::lemma_begins(out, o, stream::inflate_seen(b, q, o, cap));
                }
            },
            _ => {},
        }
    }
}

/// A stream with blocks behind its header that is cut off somewhere behind them has these
/// decoded.
pub proof fn law_cut_stream(format: WrapperFormat, t: Seq<u8>, h: int, ks: Seq<Block>)
    requires
        phases::header_len(format, t) == Some(h),
        0 <= h,
        open_at(bits::to_bits(t), 8 * h, ks, Seq::empty()),
    ensures
        phases::begins_with(phases::decoded(format, t), grammar::blocks_out(Seq::empty(), ks)),
{
    law_blocks_before_a_cut(t, 8 * h, ks, Seq::empty());
}

/// Piece by piece, a stream of blocks behind a header decodes to what the blocks stand for,
/// whatever follows them.
pub proof fn law_blocks_stream(t: Seq<u8>, h: int, ks: Seq<Block>)
    requires
        0 <= h,
        grammar::blocks_at(bits::to_bits(t), 8 * h, ks, Seq::empty()),
    ensures
        phases::rest_blocks(t, 8 * h, Seq::empty()) == (stream::Step::Next {
            p: grammar::blocks_end(8 * h, ks),
            out: grammar::blocks_out(Seq::empty(), ks),
        }),
{
    let b = bits::to_bits(t);
    let out = grammar::blocks_out(Seq::empty(), ks);
    let cap = out.len() as int;
    grammar::law_blocks_decode(b, 8 * h, ks, Seq::empty(), cap);
    laws::lemma_streams(t, h, cap, grammar::blocks_end(8 * h, ks), out);
}

/// Piece by piece, only streams of blocks decode.
pub proof fn law_only_blocks_stream(t: Seq<u8>, h: int) -> (ks: Seq<Block>)
    requires
        0 <= h,
        phases::rest_blocks(t, 8 * h, Seq::empty()) is Next,
    ensures
        grammar::blocks_at(bits::to_bits(t), 8 * h, ks, Seq::empty()),
        phases::rest_blocks(t, 8 * h, Seq::empty()) == (stream::Step::Next {
            p: grammar::blocks_end(8 * h, ks),
            out: grammar::blocks_out(Seq::empty(), ks),
        }),
{
    reveal(phases::rest_blocks);
    grammar::law_blocks_there(bits::to_bits(t), 8 * h, Seq::empty(), phases::room(t))
}

/// Of a stored block that is cut off, the bytes that are there are decoded piece by piece.
pub proof fn law_stored_before_a_cut(t: Seq<u8>, p: int, at: int, len: int, out: Seq<u8>)
    requires
        0 <= p,
        grammar::number_at(bits::to_bits(t), p + 1, 2, 0),
        p + 3 <= at < p + 3 + 8,
        at % 8 == 0,
        grammar::number_at(bits::to_bits(t), at, 16, len),
        grammar::number_at(bits::to_bits(t), at + 16, 16, 65535 - len),
        at + 32 + 8 * len > 8 * t.len(),
        out.len() + len <= phases::room(t),
    ensures
        phases::seen_blocks(t, p, out) == out + t.skip(at / 8 + 4),
{
    let b = bits::to_bits(t);
    grammar::lemma_number(b, p + 1, 2, 0);
    grammar::lemma_number(b, at, 16, len);
    grammar::lemma_number(b, at + 16, 16, 65535 - len);
    assert(stream::align8(p + 3) == at);
    reveal(phases::seen_blocks);
    let n = t.len() - (at + 32) / 8;
    let s = stream::bytes_at(b, at + 32, n);
    let w = t.skip(at / 8 + 4);
    assert forall|i: int| 0 <= i < n implies s[i] == w[i] by {
        bits::lemma_to_bits_byte(t, at / 8 + 4 + i);
        assert(at + 32 + 8 * i == 8 * (at / 8 + 4 + i));
    }
    assert(s =~= w);
}

} // verus!
