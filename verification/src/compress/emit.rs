//! What the bits that the compressor writes decode to.
//!
//! The statements are about bits followed by anything, so that they stay true
//! while more is written.

use crate::bits;
use crate::codes;
use crate::compress::items;
use crate::constants::{
    DEFLATE_LENGTH_BASE, DEFLATE_LENGTH_EXTRA_BITS, DEFLATE_OFFSET_BASE, DEFLATE_OFFSET_EXTRA_BITS,
};
use crate::stream;
use vstd::arithmetic::power2::*;
use vstd::prelude::*;

verus! {

/// A code that the compressor may write with.
pub open spec fn code_ok(lens: Seq<u8>) -> bool {
    codes::bounded(lens) && codes::complete(lens)
}

/// The bits of the codeword of symbol `s`.
pub open spec fn code_bits(lens: Seq<u8>, s: int) -> Seq<bool> {
    bits::num_bits(bits::rev(codes::codeword(lens, s), lens[s] as nat), lens[s] as nat)
}

/// A field of `n` bits, written behind `pre`, reads back.
pub proof fn lemma_field_read(pre: Seq<bool>, x: int, n: nat, ext: Seq<bool>)
    requires
        0 <= x < pow2(n),
    ensures
        bits::le_val(pre + bits::num_bits(x, n) + ext, pre.len() as int, n) == x,
{
    let b = pre + bits::num_bits(x, n) + ext;
    assert forall|i: int| 0 <= i < n implies #[trigger] bits::bit(b, pre.len() + i)
        == if bits::num_bit(x, i as nat) {
        1int
    } else {
        0
    } by {
        assert(b[pre.len() + i] == bits::num_bits(x, n)[i]);
    }
    bits::lemma_num_bits_val(b, pre.len() as int, x, n);
}

/// A codeword, written behind `pre`, reads back as its symbol.
pub proof fn lemma_symbol_read(pre: Seq<bool>, lens: Seq<u8>, s: int, ext: Seq<bool>)
    requires
        code_ok(lens),
        codes::used(lens, s),
    ensures
        stream::sym_at(pre + code_bits(lens, s) + ext, lens, pre.len() as int) == (
            s,
            lens[s] as int,
        ),
        code_bits(lens, s).len() == lens[s],
{
    let n = lens[s] as nat;
    let cw = codes::codeword(lens, s);
    let b = pre + code_bits(lens, s) + ext;
    codes::lemma_codeword(lens, s);
    bits::lemma_rev_bound(cw, n);
    lemma_field_read(pre, bits::rev(cw, n), n, ext);
    bits::lemma_rev_le(b, pre.len() as int, n);
    bits::lemma_rev_rev(cw, n);
    codes::lemma_read_codeword(lens, s, b, pre.len() as int);
}

/// Decoding items from `p0` with output `out0` gets to the end of `b` with
/// output `out1`, whatever follows.
pub open spec fn leads(
    b: Seq<bool>,
    ll: Seq<u8>,
    ol: Seq<u8>,
    p0: int,
    out0: Seq<u8>,
    out1: Seq<u8>,
) -> bool {
    &&& 0 <= p0 <= b.len()
    &&& forall|ext: Seq<bool>, cap: int|
        cap >= out1.len() ==> #[trigger] stream::items(b + ext, ll, ol, p0, out0, cap)
            == stream::items(b + ext, ll, ol, b.len() as int, out1, cap)
}

/// Decoding items from `p0` with output `out0` gets to the end of the block at
/// the end of `b`, whatever follows.
pub open spec fn ends(
    b: Seq<bool>,
    ll: Seq<u8>,
    ol: Seq<u8>,
    p0: int,
    out0: Seq<u8>,
    out1: Seq<u8>,
) -> bool {
    &&& 0 <= p0 <= b.len()
    &&& forall|ext: Seq<bool>, cap: int|
        cap >= out1.len() ==> #[trigger] stream::items(b + ext, ll, ol, p0, out0, cap)
            == (stream::Step::Next { p: b.len() as int, out: out1 })
}

/// A literal extends the output by its byte.
pub proof fn lemma_emit_literal(
    b: Seq<bool>,
    ll: Seq<u8>,
    ol: Seq<u8>,
    p0: int,
    out0: Seq<u8>,
    out1: Seq<u8>,
    lit: u8,
)
    requires
        code_ok(ll),
        codes::used(ll, lit as int),
        leads(b, ll, ol, p0, out0, out1),
    ensures
        leads(b + code_bits(ll, lit as int), ll, ol, p0, out0, out1.push(lit)),
{
    let c = code_bits(ll, lit as int);
    let b2 = b + c;
    let out2 = out1.push(lit);
    assert forall|ext: Seq<bool>, cap: int| cap >= out2.len() implies #[trigger] stream::items(
        b2 + ext,
        ll,
        ol,
        p0,
        out0,
        cap,
    ) == stream::items(b2 + ext, ll, ol, b2.len() as int, out2, cap) by {
        let e2 = c + ext;
        assert(b2 + ext =~= b + e2);
        assert(stream::items(b + e2, ll, ol, p0, out0, cap) == stream::items(
            b + e2,
            ll,
            ol,
            b.len() as int,
            out1,
            cap,
        ));
        lemma_symbol_read(b, ll, lit as int, ext);
    }
}

/// The bits of a match: the length symbol with its extra bits, then the offset
/// symbol with its extra bits.
pub open spec fn match_bits(ll: Seq<u8>, ol: Seq<u8>, len: int, dist: int) -> Seq<bool> {
    let s = items::length_slot_of(len);
    let o = items::offset_slot_of(dist);
    code_bits(ll, 257 + s) + bits::num_bits(
        len - DEFLATE_LENGTH_BASE@[s],
        DEFLATE_LENGTH_EXTRA_BITS@[s] as nat,
    ) + code_bits(ol, o) + bits::num_bits(
        dist - DEFLATE_OFFSET_BASE@[o],
        DEFLATE_OFFSET_EXTRA_BITS@[o] as nat,
    )
}

/// A match, written behind `b`, reads back.
proof fn lemma_match_read(
    b: Seq<bool>,
    ll: Seq<u8>,
    ol: Seq<u8>,
    len: int,
    dist: int,
    ext: Seq<bool>,
)
    requires
        code_ok(ll),
        code_ok(ol),
        3 <= len <= 258,
        1 <= dist <= 32768,
        codes::used(ll, 257 + items::length_slot_of(len)),
        codes::used(ol, items::offset_slot_of(dist)),
    ensures
        ({
            let bb = b + match_bits(ll, ol, len, dist) + ext;
            let s = 257 + items::length_slot_of(len);
            &&& stream::sym_at(bb, ll, b.len() as int) == (s, ll[s] as int)
            &&& stream::match_at(bb, ol, s, b.len() + ll[s]) == (
                len,
                dist,
                (b.len() + match_bits(ll, ol, len, dist).len()) as int,
            )
            &&& match_bits(ll, ol, len, dist).len() == ll[s] + DEFLATE_LENGTH_EXTRA_BITS@[s - 257]
                + ol[items::offset_slot_of(dist)]
                + DEFLATE_OFFSET_EXTRA_BITS@[items::offset_slot_of(dist)]
        }),
{
    let s = items::length_slot_of(len);
    let o = items::offset_slot_of(dist);
    items::lemma_slots(len, dist);
    let c1 = code_bits(ll, 257 + s);
    let xl = len - DEFLATE_LENGTH_BASE@[s];
    let nl = DEFLATE_LENGTH_EXTRA_BITS@[s] as nat;
    let c2 = bits::num_bits(xl, nl);
    let c3 = code_bits(ol, o);
    let xo = dist - DEFLATE_OFFSET_BASE@[o];
    let no = DEFLATE_OFFSET_EXTRA_BITS@[o] as nat;
    let c4 = bits::num_bits(xo, no);
    let bb = b + match_bits(ll, ol, len, dist) + ext;
    assert(bb =~= b + c1 + (c2 + c3 + c4 + ext));
    lemma_symbol_read(b, ll, 257 + s, c2 + c3 + c4 + ext);
    assert(bb =~= (b + c1) + c2 + (c3 + c4 + ext));
    lemma_field_read(b + c1, xl, nl, c3 + c4 + ext);
    assert(bb =~= (b + c1 + c2) + c3 + (c4 + ext));
    lemma_symbol_read(b + c1 + c2, ol, o, c4 + ext);
    assert(bb =~= (b + c1 + c2 + c3) + c4 + ext);
    lemma_field_read(b + c1 + c2 + c3, xo, no, ext);
    assert(stream::length_base(257 + s) == DEFLATE_LENGTH_BASE@[s]);
    assert(stream::length_extra(257 + s) == nl);
    assert((b + c1).len() == b.len() + ll[257 + s]);
    assert((b + c1 + c2).len() == b.len() + ll[257 + s] + nl);
    assert((b + c1 + c2 + c3).len() == b.len() + ll[257 + s] + nl + ol[o]);
}

/// A match extends the output by the bytes that it repeats.
pub proof fn lemma_emit_match(
    b: Seq<bool>,
    ll: Seq<u8>,
    ol: Seq<u8>,
    p0: int,
    out0: Seq<u8>,
    h: Seq<u8>,
    p: int,
    len: int,
    dist: int,
)
    requires
        code_ok(ll),
        code_ok(ol),
        items::item_ok(h, p, (len, dist)),
        dist != 0,
        codes::used(ll, 257 + items::length_slot_of(len)),
        codes::used(ol, items::offset_slot_of(dist)),
        leads(b, ll, ol, p0, out0, h.take(p)),
    ensures
        leads(b + match_bits(ll, ol, len, dist), ll, ol, p0, out0, h.take(p + len)),
{
    let c = match_bits(ll, ol, len, dist);
    let b2 = b + c;
    let out1 = h.take(p);
    let out2 = h.take(p + len);
    assert forall|ext: Seq<bool>, cap: int| cap >= out2.len() implies #[trigger] stream::items(
        b2 + ext,
        ll,
        ol,
        p0,
        out0,
        cap,
    ) == stream::items(b2 + ext, ll, ol, b2.len() as int, out2, cap) by {
        let e2 = c + ext;
        assert(b2 + ext =~= b + e2);
        assert(stream::items(b + e2, ll, ol, p0, out0, cap) == stream::items(
            b + e2,
            ll,
            ol,
            b.len() as int,
            out1,
            cap,
        ));
        lemma_match_read(b, ll, ol, len, dist, ext);
        items::lemma_slots(len, dist);
        items::lemma_copy_match(h, p, len as nat, dist);
        assert(out1.len() == p && out2.len() == p + len);
        assert(b2.len() > b.len());
    }
}

/// The end-of-block symbol ends the block.
pub proof fn lemma_emit_end(
    b: Seq<bool>,
    ll: Seq<u8>,
    ol: Seq<u8>,
    p0: int,
    out0: Seq<u8>,
    out1: Seq<u8>,
)
    requires
        code_ok(ll),
        codes::used(ll, 256),
        leads(b, ll, ol, p0, out0, out1),
    ensures
        ends(b + code_bits(ll, 256), ll, ol, p0, out0, out1),
{
    let c = code_bits(ll, 256);
    let b2 = b + c;
    assert forall|ext: Seq<bool>, cap: int| cap >= out1.len() implies #[trigger] stream::items(
        b2 + ext,
        ll,
        ol,
        p0,
        out0,
        cap,
    ) == (stream::Step::Next { p: b2.len() as int, out: out1 }) by {
        let e2 = c + ext;
        assert(b2 + ext =~= b + e2);
        assert(stream::items(b + e2, ll, ol, p0, out0, cap) == stream::items(
            b + e2,
            ll,
            ol,
            b.len() as int,
            out1,
            cap,
        ));
        lemma_symbol_read(b, ll, 256, ext);
    }
}

/// A whole number of bytes.
pub open spec fn whole(z: Seq<bool>) -> bool {
    z.len() % 8 == 0
}

/// Decoding the blocks in `b`, which stand behind `z` and before `ext`, takes the
/// output from `pre` to `out` and goes on behind them.
#[verifier::opaque]
pub open spec fn chain_at(
    pre: Seq<u8>,
    b: Seq<bool>,
    out: Seq<u8>,
    z: Seq<bool>,
    ext: Seq<bool>,
    cap: int,
) -> bool {
    stream::inflate(z + b + ext, z.len() as int, pre, cap) == stream::inflate(
        z + b + ext,
        (z.len() + b.len()) as int,
        out,
        cap,
    )
}

/// Decoding the blocks in `b`, which stand behind `z` and before `ext`, takes the
/// output from `pre` to `out` and ends there.
#[verifier::opaque]
pub open spec fn done_at(
    pre: Seq<u8>,
    b: Seq<bool>,
    out: Seq<u8>,
    z: Seq<bool>,
    ext: Seq<bool>,
    cap: int,
) -> bool {
    stream::inflate(z + b + ext, z.len() as int, pre, cap) == (stream::Step::Next {
        p: (z.len() + b.len()) as int,
        out,
    })
}

/// What it means that decoding ends behind the blocks.
pub proof fn lemma_done_at(
    pre: Seq<u8>,
    b: Seq<bool>,
    out: Seq<u8>,
    z: Seq<bool>,
    ext: Seq<bool>,
    cap: int,
)
    requires
        done_at(pre, b, out, z, ext, cap),
    ensures
        stream::inflate(z + b + ext, z.len() as int, pre, cap) == (stream::Step::Next {
            p: (z.len() + b.len()) as int,
            out,
        }),
{
    reveal(done_at);
}

/// The blocks in `b` take the output from `pre` to `out`, wherever among whole
/// bytes they stand, and more blocks may follow.
#[verifier::opaque]
pub open spec fn chain(pre: Seq<u8>, b: Seq<bool>, out: Seq<u8>) -> bool {
    forall|z: Seq<bool>, ext: Seq<bool>, cap: int|
        whole(z) && cap >= out.len() ==> #[trigger] chain_at(pre, b, out, z, ext, cap)
}

/// The blocks in `b` take the output from `pre` to `out`, and the last one is
/// marked as such.
#[verifier::opaque]
pub open spec fn done(pre: Seq<u8>, b: Seq<bool>, out: Seq<u8>) -> bool {
    forall|z: Seq<bool>, ext: Seq<bool>, cap: int|
        whole(z) && cap >= out.len() ==> #[trigger] done_at(pre, b, out, z, ext, cap)
}

/// What holds after a block that may be the last one.
pub open spec fn after_block(pre: Seq<u8>, b: Seq<bool>, out: Seq<u8>, last: bool) -> bool {
    if last {
        done(pre, b, out)
    } else {
        chain(pre, b, out)
    }
}

/// The blocks that `b1` has behind `b0` take the output from `out0` to `out1`.
#[verifier::opaque]
pub open spec fn extends(
    b0: Seq<bool>,
    out0: Seq<u8>,
    b1: Seq<bool>,
    out1: Seq<u8>,
    last: bool,
) -> bool {
    forall|pre: Seq<u8>| #[trigger]
        chain(pre, b0, out0) ==> after_block(pre, b1, out1, last)
}

pub proof fn lemma_chain_start(pre: Seq<u8>)
    ensures
        chain(pre, Seq::empty(), pre),
{
    reveal(chain);
    reveal(chain_at);
}

/// Blocks behind a chain of blocks.
pub proof fn lemma_extends_apply(
    pre: Seq<u8>,
    b0: Seq<bool>,
    out0: Seq<u8>,
    b1: Seq<bool>,
    out1: Seq<u8>,
    last: bool,
)
    requires
        chain(pre, b0, out0),
        extends(b0, out0, b1, out1, last),
    ensures
        after_block(pre, b1, out1, last),
{
    reveal(extends);
}

/// No blocks at all.
pub proof fn lemma_extends_nothing(b: Seq<bool>, out: Seq<u8>)
    ensures
        extends(b, out, b, out, false),
{
    reveal(extends);
}

/// Blocks behind blocks.
pub proof fn lemma_extends_trans(
    b0: Seq<bool>,
    out0: Seq<u8>,
    b1: Seq<bool>,
    out1: Seq<u8>,
    b2: Seq<bool>,
    out2: Seq<u8>,
    last: bool,
)
    requires
        extends(b0, out0, b1, out1, false),
        extends(b1, out1, b2, out2, last),
    ensures
        extends(b0, out0, b2, out2, last),
{
    reveal(extends);
    assert forall|pre: Seq<u8>| #[trigger] chain(pre, b0, out0) implies after_block(
        pre,
        b2,
        out2,
        last,
    ) by {
        assert(after_block(pre, b1, out1, false));
        assert(chain(pre, b1, out1));
    }
}

/// A block behind blocks, decoded.
proof fn lemma_block_at(
    pre: Seq<u8>,
    b0: Seq<bool>,
    out0: Seq<u8>,
    b1: Seq<bool>,
    out1: Seq<u8>,
    last: bool,
    z: Seq<bool>,
    ext: Seq<bool>,
    cap: int,
)
    requires
        b0.len() < b1.len(),
        b0 =~= b1.take(b0.len() as int),
        b1[b0.len() as int] == last,
        chain_at(pre, b0, out0, z, b1.skip(b0.len() as int) + ext, cap),
        stream::block(z + b1 + ext, (z.len() + b0.len()) as int, out0, cap)
            == (stream::Step::Next { p: (z.len() + b1.len()) as int, out: out1 }),
    ensures
        last ==> done_at(pre, b1, out1, z, ext, cap),
        !last ==> chain_at(pre, b1, out1, z, ext, cap),
{
    let e0 = b1.skip(b0.len() as int) + ext;
    let s = z + b1 + ext;
    assert(s =~= z + b0 + e0);
    let q = (z.len() + b0.len()) as int;
    let r = (z.len() + b1.len()) as int;
    assert(s[q] == b1[b0.len() as int]);
    assert(stream::is_last(s, q) == last);
    stream::lemma_inflate_step(s, q, out0, cap, r, out1);
    lemma_at(pre, b0, out0, z, e0, cap, s);
    lemma_at(pre, b1, out1, z, ext, cap, s);
}

/// What decoding blocks means, for the whole stream `s`.
proof fn lemma_at(
    pre: Seq<u8>,
    b: Seq<bool>,
    out: Seq<u8>,
    z: Seq<bool>,
    ext: Seq<bool>,
    cap: int,
    s: Seq<bool>,
)
    requires
        s == z + b + ext,
    ensures
        chain_at(pre, b, out, z, ext, cap) == (stream::inflate(s, z.len() as int, pre, cap)
            == stream::inflate(s, (z.len() + b.len()) as int, out, cap)),
        done_at(pre, b, out, z, ext, cap) == (stream::inflate(s, z.len() as int, pre, cap) == (
        stream::Step::Next { p: (z.len() + b.len()) as int, out })),
{
    reveal(chain_at);
    reveal(done_at);
}

/// A block behind a chain of blocks extends the chain.
pub proof fn lemma_chain_block(
    b0: Seq<bool>,
    out0: Seq<u8>,
    b1: Seq<bool>,
    out1: Seq<u8>,
    last: bool,
)
    requires
        b0.len() < b1.len(),
        b0 =~= b1.take(b0.len() as int),
        out0.len() <= out1.len(),
        forall|z: Seq<bool>, ext: Seq<bool>, cap: int|
            whole(z) && cap >= out1.len() ==> #[trigger] stream::block(
                z + b1 + ext,
                (z.len() + b0.len()) as int,
                out0,
                cap,
            ) == (stream::Step::Next { p: (z.len() + b1.len()) as int, out: out1 }),
        b1[b0.len() as int] == last,
    ensures
        extends(b0, out0, b1, out1, last),
{
    reveal(extends);
    assert forall|pre: Seq<u8>| #[trigger] chain(pre, b0, out0) implies after_block(
        pre,
        b1,
        out1,
        last,
    ) by {
        reveal(chain);
        reveal(done);
        assert forall|z: Seq<bool>, ext: Seq<bool>, cap: int|
            whole(z) && cap >= out1.len() && last implies #[trigger] done_at(
            pre,
            b1,
            out1,
            z,
            ext,
            cap,
        ) by {
            assert(chain_at(pre, b0, out0, z, b1.skip(b0.len() as int) + ext, cap));
            assert(stream::block(z + b1 + ext, (z.len() + b0.len()) as int, out0, cap)
                == (stream::Step::Next { p: (z.len() + b1.len()) as int, out: out1 }));
            lemma_block_at(pre, b0, out0, b1, out1, last, z, ext, cap);
        }
        assert forall|z: Seq<bool>, ext: Seq<bool>, cap: int|
            whole(z) && cap >= out1.len() && !last implies #[trigger] chain_at(
            pre,
            b1,
            out1,
            z,
            ext,
            cap,
        ) by {
            assert(chain_at(pre, b0, out0, z, b1.skip(b0.len() as int) + ext, cap));
            assert(stream::block(z + b1 + ext, (z.len() + b0.len()) as int, out0, cap)
                == (stream::Step::Next { p: (z.len() + b1.len()) as int, out: out1 }));
            lemma_block_at(pre, b0, out0, b1, out1, last, z, ext, cap);
        }
    }
}

/// The bits of a parse.
pub open spec fn parse_bits(
    h: Seq<u8>,
    base: int,
    its: Seq<(int, int)>,
    ll: Seq<u8>,
    ol: Seq<u8>,
) -> Seq<bool>
    decreases its.len(),
{
    if its.len() == 0 {
        Seq::empty()
    } else {
        let d = its.drop_last();
        let it = its.last();
        parse_bits(h, base, d, ll, ol) + if it.1 == 0 {
            code_bits(ll, h[items::end_of(base, d)] as int)
        } else {
            match_bits(ll, ol, it.0, it.1)
        }
    }
}

/// Every symbol of a parse has a codeword.
pub open spec fn covers(
    h: Seq<u8>,
    base: int,
    its: Seq<(int, int)>,
    ll: Seq<u8>,
    ol: Seq<u8>,
) -> bool {
    &&& forall|s: int|
        #[trigger] items::litlen_count(h, base, its, s) > 0 ==> codes::used(ll, s)
    &&& forall|s: int| #[trigger] items::offset_count(its, s) > 0 ==> codes::used(ol, s)
}

proof fn lemma_covers_prefix(
    h: Seq<u8>,
    base: int,
    its: Seq<(int, int)>,
    ll: Seq<u8>,
    ol: Seq<u8>,
)
    requires
        its.len() > 0,
        items::parse_ok(h, base, its),
        0 <= base <= h.len(),
        covers(h, base, its, ll, ol),
    ensures
        covers(h, base, its.drop_last(), ll, ol),
        ({
            let it = its.last();
            let p = items::end_of(base, its.drop_last());
            &&& codes::used(ll, items::litlen_sym(h, p, it))
            &&& it.1 != 0 ==> codes::used(ol, items::offset_slot_of(it.1))
        }),
{
    let d = its.drop_last();
    let it = its.last();
    let p = items::end_of(base, d);
    items::lemma_parse_len(h, base, d);
    assert forall|s: int| #[trigger] items::litlen_count(h, base, d, s) > 0 implies codes::used(
        ll,
        s,
    ) by {
        assert(items::litlen_count(h, base, its, s) > 0);
    }
    assert forall|s: int| #[trigger] items::offset_count(d, s) > 0 implies codes::used(ol, s) by {
        assert(items::offset_count(its, s) > 0);
    }
    let s = items::litlen_sym(h, p, it);
    assert(items::litlen_count(h, base, d, s) >= 0);
    assert(items::litlen_count(h, base, its, s) > 0);
    if it.1 != 0 {
        let o = items::offset_slot_of(it.1);
        assert(items::offset_count(d, o) >= 0);
        assert(items::offset_count(its, o) > 0);
    }
}

/// The bits of a parse decode to the data that it stands for.
pub proof fn lemma_parse_leads(
    b: Seq<bool>,
    h: Seq<u8>,
    base: int,
    its: Seq<(int, int)>,
    ll: Seq<u8>,
    ol: Seq<u8>,
)
    requires
        code_ok(ll),
        code_ok(ol),
        0 <= base <= h.len(),
        items::parse_ok(h, base, its),
        covers(h, base, its, ll, ol),
    ensures
        leads(
            b + parse_bits(h, base, its, ll, ol),
            ll,
            ol,
            b.len() as int,
            h.take(base),
            h.take(items::end_of(base, its)),
        ),
        parse_bits(h, base, its, ll, ol).len() == items::cost(h, base, its, ll, ol),
    decreases its.len(),
{
    if its.len() == 0 {
        assert(b + parse_bits(h, base, its, ll, ol) =~= b);
    } else {
        let d = its.drop_last();
        let it = its.last();
        let p = items::end_of(base, d);
        lemma_covers_prefix(h, base, its, ll, ol);
        lemma_parse_leads(b, h, base, d, ll, ol);
        items::lemma_parse_len(h, base, d);
        let pre = parse_bits(h, base, d, ll, ol);
        if it.1 == 0 {
            lemma_emit_literal(
                b + pre,
                ll,
                ol,
                b.len() as int,
                h.take(base),
                h.take(p),
                h[p],
            );
            lemma_symbol_read(b, ll, h[p] as int, Seq::empty());
            assert(h.take(p).push(h[p]) =~= h.take(p + 1));
            assert((b + pre) + code_bits(ll, h[p] as int) =~= b + (pre + code_bits(
                ll,
                h[p] as int,
            )));
        } else {
            lemma_emit_match(
                b + pre,
                ll,
                ol,
                b.len() as int,
                h.take(base),
                h,
                p,
                it.0,
                it.1,
            );
            lemma_match_read(b, ll, ol, it.0, it.1, Seq::empty());
            assert((b + pre) + match_bits(ll, ol, it.0, it.1) =~= b + (pre + match_bits(
                ll,
                ol,
                it.0,
                it.1,
            )));
        }
    }
}

/// Items, written behind `b` and followed by the end-of-block symbol, are a
/// whole block body.
pub proof fn lemma_body(
    b: Seq<bool>,
    h: Seq<u8>,
    base: int,
    its: Seq<(int, int)>,
    ll: Seq<u8>,
    ol: Seq<u8>,
)
    requires
        code_ok(ll),
        code_ok(ol),
        0 <= base <= h.len(),
        items::parse_ok(h, base, its),
        covers(h, base, its, ll, ol),
        codes::used(ll, 256),
    ensures
        ends(
            b + (parse_bits(h, base, its, ll, ol) + code_bits(ll, 256)),
            ll,
            ol,
            b.len() as int,
            h.take(base),
            h.take(items::end_of(base, its)),
        ),
{
    lemma_parse_leads(b, h, base, its, ll, ol);
    let pre = parse_bits(h, base, its, ll, ol);
    lemma_emit_end(
        b + pre,
        ll,
        ol,
        b.len() as int,
        h.take(base),
        h.take(items::end_of(base, its)),
    );
    assert((b + pre) + code_bits(ll, 256) =~= b + (pre + code_bits(ll, 256)));
}

/// The item at place `k` of a parse, what comes before it and what it adds.
pub proof fn lemma_parse_at(
    h: Seq<u8>,
    base: int,
    its: Seq<(int, int)>,
    k: int,
    ll: Seq<u8>,
    ol: Seq<u8>,
)
    requires
        items::parse_ok(h, base, its),
        0 <= base <= h.len(),
        covers(h, base, its, ll, ol),
        0 <= k < its.len(),
    ensures
        ({
            let p = items::end_of(base, its.take(k));
            let it = its[k];
            &&& items::parse_ok(h, base, its.take(k))
            &&& base <= p
            &&& items::item_ok(h, p, it)
            &&& items::end_of(base, its.take(k + 1)) == p + it.0
            &&& p + it.0 <= items::end_of(base, its) <= h.len()
            &&& codes::used(ll, items::litlen_sym(h, p, it))
            &&& it.1 != 0 ==> codes::used(ol, items::offset_slot_of(it.1))
            &&& parse_bits(h, base, its.take(k + 1), ll, ol) == parse_bits(
                h,
                base,
                its.take(k),
                ll,
                ol,
            ) + if it.1 == 0 {
                code_bits(ll, h[p] as int)
            } else {
                match_bits(ll, ol, it.0, it.1)
            }
        }),
    decreases its.len(),
{
    let d = its.drop_last();
    lemma_covers_prefix(h, base, its, ll, ol);
    items::lemma_parse_len(h, base, its);
    items::lemma_parse_len(h, base, d);
    if k == its.len() - 1 {
        assert(its.take(k) =~= d);
        assert(its.take(k + 1) =~= its);
    } else {
        lemma_parse_at(h, base, d, k, ll, ol);
        assert(d.take(k) =~= its.take(k));
        assert(d.take(k + 1) =~= its.take(k + 1));
    }
}

/// Two codes that give the used symbols the same lengths give a parse the same
/// cost.
pub proof fn lemma_cost_same(
    h: Seq<u8>,
    base: int,
    its: Seq<(int, int)>,
    ll: Seq<u8>,
    ol: Seq<u8>,
    ll2: Seq<u8>,
    ol2: Seq<u8>,
)
    requires
        items::parse_ok(h, base, its),
        0 <= base <= h.len(),
        covers(h, base, its, ll, ol),
        forall|s: int| #[trigger] codes::used(ll, s) ==> ll[s] == ll2[s],
        forall|s: int| #[trigger] codes::used(ol, s) ==> ol[s] == ol2[s],
    ensures
        items::cost(h, base, its, ll, ol) == items::cost(h, base, its, ll2, ol2),
    decreases its.len(),
{
    if its.len() > 0 {
        let d = its.drop_last();
        let it = its.last();
        let p = items::end_of(base, d);
        lemma_covers_prefix(h, base, its, ll, ol);
        lemma_cost_same(h, base, d, ll, ol, ll2, ol2);
        assert(codes::used(ll, items::litlen_sym(h, p, it)));
    }
}

} // verus!
