//! Wrapped streams that decompress as a whole decompress to the same piece by piece.
//!
//! As a whole, the DEFLATE data is what stands between the header and the room for the
//! footer. Piece by piece, it is what stands behind the header, with all that follows.
//! What decodes in the first does in the second, at the same place and to the same.

use crate::bits;
use crate::codes;
use crate::checksum::adler32;
use crate::checksum::crc32;
use crate::container;
use crate::decompress::laws;
use crate::decompress::phases;
use crate::decompress::window::WrapperFormat;
use crate::stream;
use vstd::arithmetic::power2::*;
use vstd::prelude::*;

verus! {

/// The bits `a` stand in `b` from position `h` on, which is the start of a byte.
pub open spec fn stands_in(a: Seq<bool>, b: Seq<bool>, h: int) -> bool {
    &&& 0 <= h
    &&& h % 8 == 0
    &&& h + a.len() <= b.len()
    &&& forall|i: int| 0 <= i < a.len() ==> #[trigger] a[i] == b[h + i]
}

proof fn lemma_le(a: Seq<bool>, b: Seq<bool>, h: int, p: int, n: nat)
    requires
        stands_in(a, b, h),
        0 <= p,
        p + n <= a.len(),
    ensures
        bits::le_val(a, p, n) == bits::le_val(b, h + p, n),
    decreases n,
{
    if n > 0 {
        assert(a[p] == b[h + p]);
        lemma_le(a, b, h, p + 1, (n - 1) as nat);
    }
}

proof fn lemma_be(a: Seq<bool>, b: Seq<bool>, h: int, p: int, n: nat)
    requires
        stands_in(a, b, h),
        0 <= p,
        p + n <= a.len(),
    ensures
        bits::be_val(a, p, n) == bits::be_val(b, h + p, n),
    decreases n,
{
    if n > 0 {
        assert(a[p] == b[h + p]);
        lemma_be(a, b, h, p + 1, (n - 1) as nat);
    }
}

/// Bits that read as a symbol begin with its codeword.
proof fn lemma_hit_codeword(lens: Seq<u8>, s: int, b: Seq<bool>, p: int)
    requires
        codes::bounded(lens),
        codes::complete(lens),
        codes::hits(lens, s, bits::be_val(b, p, 15)),
    ensures
        bits::be_val(b, p, lens[s] as nat) == codes::codeword(lens, s),
{
    let l = lens[s] as nat;
    let m = (15 - l) as nat;
    codes::lemma_codeword(lens, s);
    bits::lemma_be_split(b, p, l, m);
    assert(l + m == 15);
    bits::lemma_be_bound(b, p + l, m);
    let x = bits::be_val(b, p, l);
    let r = bits::be_val(b, p + l, m);
    let c = codes::codeword(lens, s);
    let w = pow2(m) as int;
    assert(codes::weight(lens[s] as int) == w);
    assert(x == c) by (nonlinear_arith)
        requires
            0 <= r < w,
            c * w <= x * w + r < c * w + w,
    ;
}

/// A symbol is the same there.
proof fn lemma_sym(a: Seq<bool>, b: Seq<bool>, h: int, lens: Seq<u8>, p: int)
    requires
        stands_in(a, b, h),
        codes::bounded(lens),
        codes::decodable(lens),
        lens.len() > 0,
        0 <= p,
        p + stream::sym_at(a, lens, p).1 <= a.len(),
    ensures
        stream::sym_at(b, lens, h + p) == stream::sym_at(a, lens, p),
        stream::sym_at(a, lens, p).1 >= 1,
        0 <= stream::sym_at(a, lens, p).0 < lens.len(),
{
    let w = bits::be_val(a, p, 15);
    bits::lemma_be_bound(a, p, 15);
    lemma2_to64();
    codes::lemma_next_sym_range(lens, w);
    if codes::complete(lens) {
        let s = codes::next_sym(lens, w).0;
        lemma_hit_codeword(lens, s, a, p);
        lemma_be(a, b, h, p, lens[s] as nat);
        codes::lemma_read_codeword(lens, s, b, h + p);
    }
}

/// Literals and matches are the same there.
proof fn lemma_items(
    a: Seq<bool>,
    b: Seq<bool>,
    h: int,
    ll: Seq<u8>,
    ol: Seq<u8>,
    p: int,
    out: Seq<u8>,
    cap: int,
)
    requires
        stands_in(a, b, h),
        laws::codes_ok(ll, ol),
        0 <= p,
    ensures
        stream::items(a, ll, ol, p, out, cap) matches stream::Step::Next { p: q, out: o } ==> {
            &&& p < q
            &&& q <= a.len() ==> stream::items(b, ll, ol, h + p, out, cap) == (stream::Step::Next {
                p: h + q,
                out: o,
            })
        },
    decreases stream::left(a, p),
{
    if p <= a.len() + stream::overread() {
        laws::lemma_sym_range(a, ll, p);
        let (sym, n) = stream::sym_at(a, ll, p);
        if p + n <= a.len() {
            lemma_sym(a, b, h, ll, p);
        }
        if sym < 256 {
            lemma_items(a, b, h, ll, ol, p + n, out.push(sym as u8), cap);
        } else if sym > 256 {
            laws::lemma_match_range(a, ol, sym, p + n);
            let (len, dist, q) = stream::match_at(a, ol, sym, p + n);
            let x = stream::length_extra(sym);
            let p1 = p + n + x;
            let (os, ob) = stream::sym_at(a, ol, p1);
            laws::lemma_sym_range(a, ol, p1);
            if q <= a.len() {
                lemma_le(a, b, h, p + n, x);
                lemma_sym(a, b, h, ol, p1);
                lemma_le(a, b, h, p1 + ob, stream::offset_extra(os));
            }
            if len <= cap - out.len() && dist <= out.len() {
                lemma_items(a, b, h, ll, ol, q, stream::copy_match(out, dist, len as nat), cap);
            }
        }
    }
}

/// Codeword lengths are the same there.
proof fn lemma_read_lens(
    a: Seq<bool>,
    b: Seq<bool>,
    h: int,
    pre: Seq<u8>,
    p: int,
    acc: Seq<u8>,
    total: int,
)
    requires
        stands_in(a, b, h),
        codes::bounded(pre),
        codes::decodable(pre),
        pre.len() > 0,
        0 <= p,
    ensures
        stream::read_lens(a, pre, p, acc, total) matches Some((q, lens)) ==> {
            &&& p <= q
            &&& q <= a.len() ==> stream::read_lens(b, pre, h + p, acc, total) == Some((h + q, lens))
        },
    decreases stream::missing(acc.len() as int, total),
{
    if acc.len() < total {
        laws::lemma_sym_range(a, pre, p);
        let (sym, n) = stream::sym_at(a, pre, p);
        let q = p + n;
        bits::lemma_le_bound(a, q, 2);
        bits::lemma_le_bound(a, q, 3);
        bits::lemma_le_bound(a, q, 7);
        if q <= a.len() {
            lemma_sym(a, b, h, pre, p);
        }
        if sym < 16 {
            lemma_read_lens(a, b, h, pre, q, acc.push(sym as u8), total);
        } else if sym == 16 {
            if acc.len() > 0 {
                let r = stream::repeat(acc.last(), 3 + bits::le_val(a, q, 2));
                lemma_read_lens(a, b, h, pre, q + 2, acc + r, total);
                if q + 2 <= a.len() {
                    lemma_le(a, b, h, q, 2);
                }
            }
        } else if sym == 17 {
            let r = stream::repeat(0, 3 + bits::le_val(a, q, 3));
            lemma_read_lens(a, b, h, pre, q + 3, acc + r, total);
            if q + 3 <= a.len() {
                lemma_le(a, b, h, q, 3);
            }
        } else {
            let r = stream::repeat(0, 11 + bits::le_val(a, q, 7));
            lemma_read_lens(a, b, h, pre, q + 7, acc + r, total);
            if q + 7 <= a.len() {
                lemma_le(a, b, h, q, 7);
            }
        }
    }
}

proof fn lemma_precode(a: Seq<bool>, b: Seq<bool>, h: int, p: int, n: int, k: nat)
    requires
        stands_in(a, b, h),
        0 <= p,
        p + 3 * n <= a.len(),
        k <= 19,
    ensures
        stream::precode_lens(a, p, n, k) == stream::precode_lens(b, h + p, n, k),
    decreases k,
{
    if k > 0 {
        lemma_precode(a, b, h, p, n, (k - 1) as nat);
        if k - 1 < n {
            lemma_le(a, b, h, p + 3 * (k - 1), 3);
        }
    }
}

/// The codes of a dynamic block are the same there.
proof fn lemma_header(a: Seq<bool>, b: Seq<bool>, h: int, p: int)
    requires
        stands_in(a, b, h),
        0 <= p,
    ensures
        stream::dynamic_header(a, p) matches Some((q, ll, ol)) ==> {
            &&& p <= q
            &&& q <= a.len() ==> stream::dynamic_header(b, h + p) == Some((h + q, ll, ol))
        },
{
    let nl = 257 + bits::le_val(a, p, 5);
    let no = 1 + bits::le_val(a, p + 5, 5);
    let np = 4 + bits::le_val(a, p + 10, 4);
    bits::lemma_le_bound(a, p + 10, 4);
    let pre = stream::precode_lens(a, p + 14, np, 19);
    laws::lemma_precode_small(a, p + 14, np, 19);
    let r = p + 14 + 3 * np;
    if codes::decodable(pre) {
        lemma_read_lens(a, b, h, pre, r, Seq::empty(), nl + no);
        if r <= a.len() {
            lemma_le(a, b, h, p, 5);
            lemma_le(a, b, h, p + 5, 5);
            lemma_le(a, b, h, p + 10, 4);
            lemma_precode(a, b, h, p + 14, np, 19);
        }
    }
}

/// A block is the same there.
#[verifier::spinoff_prover]
#[verifier::rlimit(40)]
proof fn lemma_block(a: Seq<bool>, b: Seq<bool>, h: int, p: int, out: Seq<u8>, cap: int)
    requires
        stands_in(a, b, h),
        0 <= p,
    ensures
        stream::block(a, p, out, cap) matches stream::Step::Next { p: q, out: o } ==> {
            &&& p < q
            &&& q <= a.len() ==> stream::block(b, h + p, out, cap) == (stream::Step::Next {
                p: h + q,
                out: o,
            }) && stream::is_last(b, h + p) == stream::is_last(a, p)
        },
{
    let kind = bits::le_val(a, p + 1, 2);
    if p + 3 <= a.len() {
        lemma_le(a, b, h, p + 1, 2);
        assert(a[p] == b[h + p]);
    }
    if kind == 0 {
        let x = stream::align8(p + 3);
        assert(stream::align8(h + p + 3) == h + x);
        bits::lemma_le_bound(a, x, 16);
        if x + 32 <= a.len() {
            lemma_le(a, b, h, x, 16);
            lemma_le(a, b, h, x + 16, 16);
            let len = bits::le_val(a, x, 16);
            if x + 32 + 8 * len <= a.len() {
                assert forall|i: int| 0 <= i < len implies bits::le_val(
                    a,
                    x + 32 + 8 * i,
                    8,
                ) == #[trigger] bits::le_val(b, h + x + 32 + 8 * i, 8) by {
                    lemma_le(a, b, h, x + 32 + 8 * i, 8);
                }
                assert(stream::bytes_at(a, x + 32, len) =~= stream::bytes_at(b, h + x + 32, len));
            }
        }
    } else {
        laws::lemma_block_codes(a, p);
        if kind == 2 {
            lemma_header(a, b, h, p + 3);
        }
        match stream::block_codes(a, p) {
            Some((q, ll, ol)) => {
                lemma_items(a, b, h, ll, ol, q, out, cap);
            },
            None => {},
        }
    }
}

/// What decodes does so wherever the bits stand at the start of a byte, and whatever
/// follows.
pub proof fn law_inflate_anywhere(
    a: Seq<bool>,
    b: Seq<bool>,
    h: int,
    p: int,
    out: Seq<u8>,
    cap: int,
)
    requires
        stands_in(a, b, h),
        0 <= p,
    ensures
        stream::inflate(a, p, out, cap) matches stream::Step::Next { p: q, out: o }
            ==> stream::inflate(b, h + p, out, cap) == (stream::Step::Next { p: h + q, out: o }) && p
            < q <= a.len(),
    decreases stream::left(a, p),
{
    if p <= a.len() + stream::overread() {
        lemma_block(a, b, h, p, out, cap);
        match stream::block(a, p, out, cap) {
            stream::Step::Next { p: q, out: o } => {
                if !stream::is_last(a, p) {
                    law_inflate_anywhere(a, b, h, q, o, cap);
                }
            },
            _ => {},
        }
    }
}

/// The DEFLATE data of a wrapped stream, decoded in the whole of it.
proof fn lemma_wrapped(t: Seq<u8>, h: int, e: int, cap: int) -> (p: int)
    requires
        0 <= h <= e <= t.len(),
        container::deflate(t.subrange(h, e), cap) is Done,
    ensures
        ({
            let d = container::deflate(t.subrange(h, e), cap);
            &&& phases::rest_blocks(t, 8 * h, Seq::empty()) == (stream::Step::Next {
                p,
                out: d->out,
            })
            &&& stream::bytes_for(p) == h + d->consumed
            &&& h + d->consumed <= e
        }),
{
    let s = t.subrange(h, e);
    let a = bits::to_bits(s);
    let b = bits::to_bits(t);
    assert(stands_in(a, b, 8 * h)) by {
        assert forall|i: int| 0 <= i < a.len() implies #[trigger] a[i] == b[8 * h + i] by {
            assert((8 * h + i) / 8 == h + i / 8);
            assert((8 * h + i) % 8 == i % 8);
        }
    }
    law_inflate_anywhere(a, b, 8 * h, 0, Seq::empty(), cap);
    match stream::inflate_bytes(s, cap) {
        stream::Step::Next { p: q, out } => {
            laws::lemma_streams(t, h, cap, 8 * h + q, out);
            8 * h + q
        },
        _ => 0,
    }
}

/// A zlib stream that decompresses as a whole decompresses to the same piece by piece.
pub proof fn law_zlib_parity(t: Seq<u8>, cap: int)
    requires
        container::zlib(t, cap) is Done,
    ensures
        phases::streamed(WrapperFormat::Zlib, t) == (phases::Streamed::Done {
            out: container::zlib(t, cap)->out,
            matched: Some(true),
        }),
{
    let p = lemma_wrapped(t, 2, t.len() - 4, cap);
    let first = phases::first_bytes(t);
    assert(first[0] == t[0] && first[1] == t[1]);
}

/// A zero-terminated string ends at the same place in the first bytes, if it ends there.
proof fn lemma_zero_first(t: Seq<u8>, n: int, pos: int)
    requires
        0 <= pos <= n <= t.len(),
    ensures
        container::zero_from(t, pos) < n ==> container::zero_from(t.take(n), pos)
            == container::zero_from(t, pos),
    decreases n - pos,
{
    container::lemma_zero_from(t, pos);
    if pos < n && t[pos] != 0 {
        lemma_zero_first(t, n, pos + 1);
    }
}

/// A gzip header that lies in the first bytes is the one that is found there.
#[verifier::spinoff_prover]
proof fn lemma_gzip_first(t: Seq<u8>)
    requires
        container::gzip_header(t) is Some,
        container::gzip_header(t)->0 <= 512,
    ensures
        phases::gzip_header(phases::first_bytes(t)) == container::gzip_header(t),
{
    let d = phases::first_bytes(t);
    let n = d.len() as int;
    assert(d =~= t.take(n));
    let a = container::gzip_extra(t, 10)->0;
    container::lemma_zero_from(t, a);
    let b = container::gzip_name(t, a)->0;
    container::lemma_zero_from(t, b);
    let c = container::gzip_comment(t, b)->0;
    container::lemma_gzip_header(t);
    assert(10 <= a <= b <= c <= n);
    assert(d[3] == t[3]);
    if (t[3] / 4) % 2 != 0 {
        assert(d[10] == t[10] && d[11] == t[11]);
    }
    lemma_zero_first(t, n, a);
    lemma_zero_first(t, n, b);
}

/// A gzip member that decompresses as a whole decompresses to the same piece by piece, if
/// its header lies in the first bytes that are looked at for it.
pub proof fn law_gzip_parity(t: Seq<u8>, cap: int)
    requires
        container::gzip(t, cap) is Done,
        container::gzip_header(t)->0 <= 512,
    ensures
        phases::streamed(WrapperFormat::Gzip, t) == (phases::Streamed::Done {
            out: container::gzip(t, cap)->out,
            matched: Some(true),
        }),
{
    let h = container::gzip_header(t)->0;
    container::lemma_gzip_header(t);
    let p = lemma_wrapped(t, h, t.len() - 8, cap);
    lemma_gzip_first(t);
}

/// A zlib stream whose data decompresses as a whole but does not agree with its footer
/// decompresses to the same piece by piece, and the mismatch is noticed; one with a bad
/// header has it there too.
pub proof fn law_zlib_mismatch(t: Seq<u8>, cap: int)
    ensures
        container::zlib(t, cap) is BadFooter ==> phases::streamed(WrapperFormat::Zlib, t) == (
        phases::Streamed::Done {
            out: container::deflate(t.subrange(2, t.len() - 4), cap)->out,
            matched: Some(false),
        }),
        t.len() >= 6 ==> (container::zlib(t, cap) is BadHeader <==> phases::streamed(
            WrapperFormat::Zlib,
            t,
        ) is BadHeader),
{
    let first = phases::first_bytes(t);
    if t.len() >= 6 {
        assert(first[0] == t[0] && first[1] == t[1]);
        if container::deflate(t.subrange(2, t.len() - 4), cap) is Done {
            let p = lemma_wrapped(t, 2, t.len() - 4, cap);
        }
    }
}

/// A gzip member whose data decompresses as a whole but does not agree with its footer
/// decompresses to the same piece by piece, and the mismatch is noticed, if its header lies
/// in the first bytes that are looked at for it.
pub proof fn law_gzip_mismatch(t: Seq<u8>, cap: int)
    requires
        container::gzip(t, cap) is BadFooter,
        container::gzip_header(t)->0 <= 512,
    ensures
        phases::streamed(WrapperFormat::Gzip, t) == (phases::Streamed::Done {
            out: container::deflate(
                t.subrange(container::gzip_header(t)->0, t.len() - 8),
                cap,
            )->out,
            matched: Some(false),
        }),
{
    let h = container::gzip_header(t)->0;
    container::lemma_gzip_header(t);
    let p = lemma_wrapped(t, h, t.len() - 8, cap);
    lemma_gzip_first(t);
}

/// Behind DEFLATE data that ends in byte `f` stands the footer. It agrees only if it is the
/// checksum, with all of its four bytes, and for gzip the length too.
pub proof fn law_stream_footer(format: WrapperFormat, t: Seq<u8>, h: int, p: int, out: Seq<u8>)
    requires
        phases::header_len(format, t) == Some(h),
        0 <= h,
        phases::rest_blocks(t, 8 * h, Seq::empty()) == (stream::Step::Next { p, out }),
    ensures
        ({
            let f = (p + 7) / 8;
            match format {
                WrapperFormat::Raw => phases::streamed(format, t) == (phases::Streamed::Done {
                    out,
                    matched: None,
                }),
                WrapperFormat::Zlib => phases::streamed(format, t) == if f + 4 > t.len() {
                    phases::Streamed::BadData
                } else {
                    phases::Streamed::Done {
                        out,
                        matched: Some(
                            container::is_be32(
                                t.subrange(f, f + 4),
                                adler32::adler32_spec(1, out),
                            ),
                        ),
                    }
                },
                WrapperFormat::Gzip => phases::streamed(format, t) == if f + 8 > t.len() {
                    phases::Streamed::BadData
                } else {
                    phases::Streamed::Done {
                        out,
                        matched: Some(
                            container::is_le32(
                                t.subrange(f, f + 4),
                                crc32::crc32_spec(0, out) as int,
                            ) && container::is_le32(
                                t.subrange(f + 4, f + 8),
                                out.len() as int % 0x1_0000_0000,
                            ),
                        ),
                    }
                },
            }
        }),
{
    let f = (p + 7) / 8;
    assert(0 <= f) by {
        reveal(phases::rest_blocks);
        laws::law_inflate_history(
            bits::to_bits(t),
            8 * h,
            Seq::empty(),
            phases::room(t),
            Seq::empty(),
            phases::room(t),
        );
    }
    if f + 4 <= t.len() {
        container::lemma_bytes_of(t.subrange(f, f + 4), adler32::adler32_spec(1, out));
        container::lemma_bytes_of(t.subrange(f, f + 4), crc32::crc32_spec(0, out) as int);
    }
    if f + 8 <= t.len() {
        container::lemma_bytes_of(
            t.subrange(f + 4, f + 8),
            out.len() as int % 0x1_0000_0000,
        );
    }
}

/// A string is skipped, however long it is.
proof fn lemma_string_end(data: Seq<u8>, pos: int, s: Seq<u8>)
    requires
        container::zero_free(s),
        0 <= pos,
        pos + s.len() + 1 <= data.len(),
        data.subrange(pos, pos + s.len() + 1) == s + seq![0u8],
    ensures
        phases::string_end(data, pos) == Some((pos + s.len() + 1) as int),
{
    let part = data.subrange(pos, pos + s.len() + 1);
    assert forall|i: int| pos <= i < pos + s.len() implies #[trigger] data[i] != 0 by {
        assert(part[i - pos] == s[i - pos]);
    }
    assert(part[s.len() as int] == 0);
    container::lemma_zero_found(data, pos, pos + s.len());
}

/// The parts of a gzip header, one after the other.
#[verifier::spinoff_prover]
proof fn lemma_stream_parts(
    f: container::GzipFields,
    data: Seq<u8>,
    b: int,
    c: int,
    d: int,
    e: int,
)
    requires
        f.valid(),
        data.len() >= 10,
        data[0] == 0x1F,
        data[1] == 0x8B,
        data[2] == 8,
        data[3] == f.flags(),
        10 <= b <= c <= d <= e <= data.len(),
        data.subrange(10, b) == f.extra_bytes(),
        data.subrange(b, c) == container::GzipFields::string_bytes(f.name),
        data.subrange(c, d) == container::GzipFields::string_bytes(f.comment),
        data.subrange(d, e) == f.check_bytes(),
    ensures
        phases::gzip_header(data) == Some(e),
{
    container::lemma_flags(f);
    assert(data.subrange(10, b).len() == b - 10);
    assert(data.subrange(b, c).len() == c - b);
    assert(data.subrange(c, d).len() == d - c);
    assert(data.subrange(d, e).len() == e - d);
    assert(phases::extra_end(data, 10) == Some(b)) by {
        if let Some(x) = f.extra {
            let n = x.len() as int;
            assert(data[10] == data.subrange(10, b)[0]);
            assert(data[11] == data.subrange(10, b)[1]);
            assert(n == n % 256 + 256 * (n / 256));
        }
    }
    assert(phases::name_end(data, b) == Some(c)) by {
        if let Some(s) = f.name {
            lemma_string_end(data, b, s);
        }
    }
    assert(phases::comment_end(data, c) == Some(d)) by {
        if let Some(s) = f.comment {
            lemma_string_end(data, c, s);
        }
    }
}

/// Piece by piece, every gzip header of the format is accepted that lies within the first
/// bytes, with whatever optional parts, and its length is known.
#[verifier::spinoff_prover]
#[verifier::rlimit(60)]
pub proof fn law_stream_gzip_header(f: container::GzipFields, rest: Seq<u8>)
    requires
        f.valid(),
        f.bytes().len() <= 512,
    ensures
        phases::header_len(WrapperFormat::Gzip, f.bytes() + rest) == Some(f.bytes().len() as int),
{
    let a = seq![0x1Fu8, 0x8B, 8, f.flags() as u8];
    let x = f.extra_bytes();
    let y = container::GzipFields::string_bytes(f.name);
    let z = container::GzipFields::string_bytes(f.comment);
    let w = f.check_bytes();
    let all = a + f.origin + x + y + z + w + rest;
    let data = phases::first_bytes(all);
    let b = 10 + x.len() as int;
    let c = b + y.len() as int;
    let d = c + z.len() as int;
    let e = d + w.len() as int;
    assert(0 <= f.flags() < 32) by {
        container::lemma_flags(f);
    }
    assert(data.len() >= e);
    assert(data[0] == a[0] && data[1] == a[1] && data[2] == a[2] && data[3] == a[3]);
    assert(data.subrange(10, b) =~= x);
    assert(data.subrange(b, c) =~= y);
    assert(data.subrange(c, d) =~= z);
    assert(data.subrange(d, e) =~= w);
    lemma_stream_parts(f, data, b, c, d, e);
}

/// Piece by piece, only gzip headers of the format are accepted.
#[verifier::spinoff_prover]
#[verifier::rlimit(60)]
pub proof fn law_stream_gzip_valid(t: Seq<u8>) -> (f: container::GzipFields)
    requires
        phases::header_len(WrapperFormat::Gzip, t) is Some,
    ensures
        f.valid(),
        phases::header_len(WrapperFormat::Gzip, t)->0 <= t.len(),
        f.bytes() == t.take(phases::header_len(WrapperFormat::Gzip, t)->0),
{
    let data = phases::first_bytes(t);
    let fl = data[3] as int;
    let a = phases::extra_end(data, 10)->0;
    container::lemma_zero_first(data, a);
    let b = phases::name_end(data, a)->0;
    container::lemma_zero_first(data, b);
    let c = phases::comment_end(data, b)->0;
    let d = phases::hcrc_end(data, c)->0;
    let f = container::GzipFields {
        text: fl % 2 == 1,
        origin: data.subrange(4, 10),
        extra: if (fl / 4) % 2 == 0 {
            None
        } else {
            Some(data.subrange(12, a))
        },
        name: if (fl / 8) % 2 == 0 {
            None
        } else {
            Some(data.subrange(a, b - 1))
        },
        comment: if (fl / 16) % 2 == 0 {
            None
        } else {
            Some(data.subrange(b, c - 1))
        },
        check: if (fl / 2) % 2 == 0 {
            None
        } else {
            Some((data[c], data[c + 1]))
        },
    };
    if let Some(x) = f.name {
        assert forall|i: int| 0 <= i < x.len() implies #[trigger] x[i] != 0 by {
            assert(x[i] == data[a + i]);
        }
    }
    if let Some(x) = f.comment {
        assert forall|i: int| 0 <= i < x.len() implies #[trigger] x[i] != 0 by {
            assert(x[i] == data[b + i]);
        }
    }
    assert(f.flags() == fl);
    assert(f.extra_bytes() =~= data.subrange(10, a)) by {
        if let Some(x) = f.extra {
            let n = data[10] + 256 * data[11];
            assert(x.len() == n);
            assert(n % 256 == data[10] && n / 256 == data[11]);
        }
    }
    assert(container::GzipFields::string_bytes(f.name) =~= data.subrange(a, b));
    assert(container::GzipFields::string_bytes(f.comment) =~= data.subrange(b, c));
    assert(f.check_bytes() =~= data.subrange(c, d));
    assert(f.bytes() =~= t.take(d));
    f
}

/// Piece by piece, the zlib headers of the format are accepted, and no others.
pub proof fn law_stream_zlib_header(t: Seq<u8>)
    ensures
        phases::header_len(WrapperFormat::Zlib, t) == Some(2int) <==> t.len() >= 2 && exists|
            window: int,
            level: int,
        |
            0 <= window <= 7 && 0 <= level <= 3 && t[0] == 8 + 16 * window && t[1]
                == #[trigger] container::zlib_second(window, level),
{
    let d = phases::first_bytes(t);
    if t.len() >= 2 {
        assert(d[0] == t[0] && d[1] == t[1]);
        let x = d.take(2) + seq![0u8, 0, 0, 0];
        assert(x[0] == t[0] && x[1] == t[1]);
        container::law_zlib_header(x);
        assert(phases::zlib_header(d) == container::zlib_header(x));
    }
}

} // verus!
