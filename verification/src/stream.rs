//! What a DEFLATE stream means.
//!
//! Decoding is a function of the stream's bits, of the output so far and of the
//! room for output. The stream is a sequence of bits followed by zeros without
//! end, so that decoding may run past the end of the data; it is given up once
//! an item starts more than `overread()` bits past the end, and a stream that needs any bit
//! past the end is bad.

use crate::bits;
use crate::codes;
use crate::constants::{
    DEFLATE_LENGTH_BASE, DEFLATE_LENGTH_EXTRA_BITS, DEFLATE_OFFSET_BASE, DEFLATE_OFFSET_EXTRA_BITS,
    DEFLATE_PRECODE_LENS_PERMUTATION,
};
use vstd::prelude::*;

verus! {

/// How many bits past the end of the data an item may start.
pub open spec fn overread() -> int {
    8
}

/// How much of the stream is left at bit position `p`.
pub open spec fn left(b: Seq<bool>, p: int) -> int {
    if p > b.len() + overread() {
        0
    } else {
        b.len() + overread() + 1 - p
    }
}

/// How many of `total` are missing.
pub open spec fn missing(n: int, total: int) -> int {
    if n >= total {
        0
    } else {
        total - n
    }
}

/// The outcome of decoding a part of a stream.
#[verifier::ext_equal]
pub enum Step {
    /// Decoding reached bit position `p` with output `out`.
    Next { p: int, out: Seq<u8> },
    /// The data is not a DEFLATE stream.
    Bad,
    /// The output does not fit.
    NoSpace,
}

/// The smallest match length of a length symbol.
pub open spec fn length_base(sym: int) -> int {
    if sym >= 286 {
        258
    } else {
        DEFLATE_LENGTH_BASE@[sym - 257] as int
    }
}

/// The number of extra bits of a length symbol.
pub open spec fn length_extra(sym: int) -> nat {
    if sym >= 286 {
        0
    } else {
        DEFLATE_LENGTH_EXTRA_BITS@[sym - 257] as nat
    }
}

/// The smallest match offset of an offset symbol.
pub open spec fn offset_base(sym: int) -> int {
    DEFLATE_OFFSET_BASE@[sym] as int
}

/// The number of extra bits of an offset symbol.
pub open spec fn offset_extra(sym: int) -> nat {
    DEFLATE_OFFSET_EXTRA_BITS@[sym] as nat
}

/// The output after a match: `len` times, the byte `dist` places back is repeated.
pub open spec fn copy_match(out: Seq<u8>, dist: int, len: nat) -> Seq<u8>
    decreases len,
{
    if len == 0 {
        out
    } else {
        let o = copy_match(out, dist, (len - 1) as nat);
        o.push(o[o.len() - dist])
    }
}

/// The symbol of the code `lens` at bit position `p`, and its length in bits.
pub open spec fn sym_at(b: Seq<bool>, lens: Seq<u8>, p: int) -> (int, int) {
    codes::next_sym(lens, bits::be_val(b, p, 15))
}

/// A match read at bit position `p`, just past its length symbol `sym`: its
/// length, its offset and the position after it.
pub open spec fn match_at(b: Seq<bool>, ol: Seq<u8>, sym: int, p: int) -> (int, int, int) {
    let len = length_base(sym) + bits::le_val(b, p, length_extra(sym));
    let p1 = p + length_extra(sym);
    let (os, ob) = sym_at(b, ol, p1);
    let dist = offset_base(os) + bits::le_val(b, p1 + ob, offset_extra(os));
    (len, dist, p1 + ob + offset_extra(os))
}

/// Decode literals and matches from bit position `p` to the end of the block.
///
/// `ll` and `ol` are the codeword lengths of the literal/length code and of the
/// offset code, `out` the output so far and `cap` the room for all output.
pub open spec fn items(
    b: Seq<bool>,
    ll: Seq<u8>,
    ol: Seq<u8>,
    p: int,
    out: Seq<u8>,
    cap: int,
) -> Step
    decreases left(b, p),
{
    if p > b.len() + overread() {
        Step::Bad
    } else {
        let (sym, n) = sym_at(b, ll, p);
        if n < 1 {
            Step::Bad
        } else if sym < 256 {
            if out.len() >= cap {
                Step::NoSpace
            } else {
                items(b, ll, ol, p + n, out.push(sym as u8), cap)
            }
        } else if sym == 256 {
            Step::Next { p: p + n, out }
        } else {
            let (len, dist, q) = match_at(b, ol, sym, p + n);
            if len > cap - out.len() {
                Step::NoSpace
            } else if dist > out.len() || q <= p {
                Step::Bad
            } else {
                items(b, ll, ol, q, copy_match(out, dist, len as nat), cap)
            }
        }
    }
}

/// The codeword lengths of the precode after `k` of the fields at bit position
/// `p`, of which the first `n` are present in the stream.
pub open spec fn precode_lens(b: Seq<bool>, p: int, n: int, k: nat) -> Seq<u8>
    decreases k,
{
    if k == 0 {
        Seq::new(19, |i: int| 0u8)
    } else {
        precode_lens(b, p, n, (k - 1) as nat).update(
            DEFLATE_PRECODE_LENS_PERMUTATION@[k - 1] as int,
            if k - 1 < n {
                bits::le_val(b, p + 3 * (k - 1), 3) as u8
            } else {
                0
            },
        )
    }
}

/// `n` copies of a codeword length.
pub open spec fn repeat(v: u8, n: int) -> Seq<u8> {
    Seq::new(n as nat, |i: int| v)
}

/// Read codeword lengths, packed with the precode `pre`, from bit position `p`
/// until there are `total` of them; `acc` are those read so far.
pub open spec fn read_lens(
    b: Seq<bool>,
    pre: Seq<u8>,
    p: int,
    acc: Seq<u8>,
    total: int,
) -> Option<(int, Seq<u8>)>
    decreases missing(acc.len() as int, total),
{
    if acc.len() >= total {
        if acc.len() == total {
            Some((p, acc))
        } else {
            None
        }
    } else {
        let (sym, n) = sym_at(b, pre, p);
        let q = p + n;
        if sym < 16 {
            read_lens(b, pre, q, acc.push(sym as u8), total)
        } else if sym == 16 {
            if acc.len() == 0 {
                None
            } else {
                let r = repeat(acc.last(), 3 + bits::le_val(b, q, 2));
                if r.len() < 1 {
                    None
                } else {
                    read_lens(b, pre, q + 2, acc + r, total)
                }
            }
        } else if sym == 17 {
            let r = repeat(0, 3 + bits::le_val(b, q, 3));
            if r.len() < 1 {
                None
            } else {
                read_lens(b, pre, q + 3, acc + r, total)
            }
        } else {
            let r = repeat(0, 11 + bits::le_val(b, q, 7));
            if r.len() < 1 {
                None
            } else {
                read_lens(b, pre, q + 7, acc + r, total)
            }
        }
    }
}

/// The codes of a dynamic block, read at bit position `p` just past the block's
/// type: the codeword lengths of both codes and the position after them.
pub open spec fn dynamic_header(b: Seq<bool>, p: int) -> Option<(int, Seq<u8>, Seq<u8>)> {
    let nl = 257 + bits::le_val(b, p, 5);
    let no = 1 + bits::le_val(b, p + 5, 5);
    let np = 4 + bits::le_val(b, p + 10, 4);
    let pre = precode_lens(b, p + 14, np, 19);
    if !codes::decodable(pre) {
        None
    } else {
        match read_lens(b, pre, p + 14 + 3 * np, Seq::empty(), nl + no) {
            None => None,
            Some((q, lens)) => {
                let ll = lens.take(nl);
                let ol = lens.skip(nl);
                if codes::decodable(ll) && codes::decodable(ol) {
                    Some((q, ll, ol))
                } else {
                    None
                }
            },
        }
    }
}

/// The codeword lengths of the static literal/length code.
pub open spec fn static_litlen_lens() -> Seq<u8> {
    Seq::new(
        288,
        |s: int|
            if s < 144 {
                8u8
            } else if s < 256 {
                9
            } else if s < 280 {
                7
            } else {
                8
            },
    )
}

/// The codeword lengths of the static offset code.
pub open spec fn static_offset_lens() -> Seq<u8> {
    Seq::new(32, |s: int| 5u8)
}

/// The position rounded up to a byte boundary.
pub open spec fn align8(p: int) -> int {
    (p + 7) / 8 * 8
}

/// `n` whole bytes from bit position `p` on.
pub open spec fn bytes_at(b: Seq<bool>, p: int, n: int) -> Seq<u8> {
    Seq::new(n as nat, |i: int| bits::le_val(b, p + 8 * i, 8) as u8)
}

/// An uncompressed block, read at bit position `p` just past its type.
pub open spec fn stored(b: Seq<bool>, p: int, out: Seq<u8>, cap: int) -> Step {
    let q = align8(p);
    let len = bits::le_val(b, q, 16);
    let nlen = bits::le_val(b, q + 16, 16);
    let d = q + 32;
    if d > b.len() {
        Step::Bad
    } else if len + nlen != 65535 {
        Step::Bad
    } else if len > cap - out.len() {
        Step::NoSpace
    } else if d + 8 * len > b.len() {
        Step::Bad
    } else {
        Step::Next { p: d + 8 * len, out: out + bytes_at(b, d, len) }
    }
}

/// The codes of the block at bit position `p`, unless it is stored, and the
/// position where its literals and matches begin.
pub open spec fn block_codes(b: Seq<bool>, p: int) -> Option<(int, Seq<u8>, Seq<u8>)> {
    let kind = bits::le_val(b, p + 1, 2);
    if kind == 1 {
        Some((p + 3, static_litlen_lens(), static_offset_lens()))
    } else if kind == 2 {
        dynamic_header(b, p + 3)
    } else {
        None
    }
}

/// The block at bit position `p`.
pub open spec fn block(b: Seq<bool>, p: int, out: Seq<u8>, cap: int) -> Step {
    let kind = bits::le_val(b, p + 1, 2);
    if kind == 0 {
        stored(b, p + 3, out, cap)
    } else {
        match block_codes(b, p) {
            None => Step::Bad,
            Some((q, ll, ol)) => items(b, ll, ol, q, out, cap),
        }
    }
}

/// The block at bit position `p` is marked as the last one.
pub open spec fn is_last(b: Seq<bool>, p: int) -> bool {
    bits::bit(b, p) == 1
}

/// Decode blocks from bit position `p` to the end of the stream.
pub open spec fn inflate(b: Seq<bool>, p: int, out: Seq<u8>, cap: int) -> Step
    decreases left(b, p),
{
    if p > b.len() + overread() {
        Step::Bad
    } else {
        match block(b, p, out, cap) {
            Step::Next { p: q, out: o } => {
                if is_last(b, p) {
                    if q > b.len() {
                        Step::Bad
                    } else {
                        Step::Next { p: q, out: o }
                    }
                } else if q <= p {
                    Step::Bad
                } else {
                    inflate(b, q, o, cap)
                }
            },
            e => e,
        }
    }
}

/// The output when decoding the literals and matches of a block stops, for whatever reason.
pub open spec fn items_seen(
    b: Seq<bool>,
    ll: Seq<u8>,
    ol: Seq<u8>,
    p: int,
    out: Seq<u8>,
    cap: int,
) -> Seq<u8>
    decreases left(b, p),
{
    let (sym, n) = sym_at(b, ll, p);
    let (len, dist, q) = match_at(b, ol, sym, p + n);
    if p > b.len() + overread() || n < 1 || sym == 256 {
        out
    } else if sym < 256 {
        if out.len() >= cap {
            out
        } else {
            items_seen(b, ll, ol, p + n, out.push(sym as u8), cap)
        }
    } else if len > cap - out.len() || dist > out.len() || q <= p {
        out
    } else {
        items_seen(b, ll, ol, q, copy_match(out, dist, len as nat), cap)
    }
}

/// The output when decoding a block stops, for whatever reason.
pub open spec fn block_seen(b: Seq<bool>, p: int, out: Seq<u8>, cap: int) -> Seq<u8> {
    if bits::le_val(b, p + 1, 2) == 0 {
        match stored(b, p + 3, out, cap) {
            Step::Next { p: q, out: o } => o,
            _ => out,
        }
    } else {
        match block_codes(b, p) {
            None => out,
            Some((q, ll, ol)) => items_seen(b, ll, ol, q, out, cap),
        }
    }
}

/// The output when decoding blocks stops, for whatever reason.
pub open spec fn inflate_seen(b: Seq<bool>, p: int, out: Seq<u8>, cap: int) -> Seq<u8>
    decreases left(b, p),
{
    if p > b.len() + overread() {
        out
    } else {
        match block(b, p, out, cap) {
            Step::Next { p: q, out: o } => {
                if is_last(b, p) || q <= p {
                    o
                } else {
                    inflate_seen(b, q, o, cap)
                }
            },
            _ => block_seen(b, p, out, cap),
        }
    }
}

/// The bytes `d` in place of the first ones of `s`.
pub open spec fn over(d: Seq<u8>, s: Seq<u8>) -> Seq<u8> {
    d + s.skip(d.len() as int)
}

/// What is in an output that held `old` when decoding `data` into it has stopped, for
/// whatever reason: what was decoded, and behind it what was there before.
pub open spec fn decoded_into(data: Seq<u8>, old: Seq<u8>) -> Seq<u8> {
    over(inflate_seen(bits::to_bits(data), 0, Seq::empty(), old.len() as int), old)
}

/// Decode the raw DEFLATE stream at the start of `data`.
pub open spec fn inflate_bytes(data: Seq<u8>, cap: int) -> Step {
    inflate(bits::to_bits(data), 0, Seq::empty(), cap)
}

/// The number of bytes that hold `p` bits.
pub open spec fn bytes_for(p: int) -> int {
    (p + 7) / 8
}

/// The share of the first `n` symbols of the static literal/length code.
proof fn lemma_static_litlen_mass(n: nat)
    requires
        n <= 288,
    ensures
        codes::mass(static_litlen_lens(), 16, 0, n) == if n <= 144 {
            128 * (n as int)
        } else if n <= 256 {
            128 * 144 + 64 * (n - 144)
        } else if n <= 280 {
            128 * 144 + 64 * 112 + 256 * (n - 256)
        } else {
            128 * 144 + 64 * 112 + 256 * 24 + 128 * (n - 280)
        },
    decreases n,
{
    vstd::arithmetic::power2::lemma2_to64();
    if n > 0 {
        lemma_static_litlen_mass((n - 1) as nat);
    }
}

proof fn lemma_static_offset_mass(n: nat)
    requires
        n <= 32,
    ensures
        codes::mass(static_offset_lens(), 16, 0, n) == 1024 * n,
    decreases n,
{
    vstd::arithmetic::power2::lemma2_to64();
    if n > 0 {
        lemma_static_offset_mass((n - 1) as nat);
    }
}

/// The static codes are complete.
pub proof fn lemma_static_codes()
    ensures
        codes::bounded(static_litlen_lens()),
        codes::complete(static_litlen_lens()),
        codes::bounded(static_offset_lens()),
        codes::complete(static_offset_lens()),
{
    lemma_static_litlen_mass(288);
    lemma_static_offset_mass(32);
}

/// Decoding goes on behind a block, or ends there.
pub proof fn lemma_inflate_step(b: Seq<bool>, p: int, out: Seq<u8>, cap: int, q: int, o: Seq<u8>)
    requires
        block(b, p, out, cap) == (Step::Next { p: q, out: o }),
        p < q <= b.len(),
    ensures
        inflate(b, p, out, cap) == if is_last(b, p) {
            Step::Next { p: q, out: o }
        } else {
            inflate(b, q, o, cap)
        },
{
}

} // verus!
