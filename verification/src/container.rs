//! What zlib and gzip streams mean: a header, a DEFLATE stream and a footer
//! with a checksum.

use crate::checksum::adler32;
use crate::checksum::crc32;
use crate::fast_bytes;
use crate::stream;
use vstd::prelude::*;

verus! {

/// The outcome of unwrapping a stream.
pub enum Unwrapped {
    /// The stream takes `consumed` bytes and holds `out`.
    Done { consumed: int, out: Seq<u8> },
    /// The header is invalid.
    BadHeader,
    /// The DEFLATE data is invalid.
    BadData,
    /// The output does not fit.
    NoSpace,
    /// The output does not agree with the footer.
    BadFooter,
}

/// The number that the four bytes at `pos` form, most significant first.
pub open spec fn be32(data: Seq<u8>, pos: int) -> int {
    16777216 * data[pos] + 65536 * data[pos + 1] + 256 * data[pos + 2] + data[pos + 3]
}

/// A valid zlib header: a check value, the method, the window size and no
/// preset dictionary.
pub open spec fn zlib_header(data: Seq<u8>) -> bool {
    &&& data.len() >= 6
    &&& (256 * data[0] + data[1]) % 31 == 0
    &&& data[0] % 16 == 8
    &&& data[0] / 16 <= 7
    &&& (data[1] / 32) % 2 == 0
}

/// Unwrap the raw DEFLATE stream at the start of `data`.
pub open spec fn deflate(data: Seq<u8>, cap: int) -> Unwrapped {
    match stream::inflate_bytes(data, cap) {
        stream::Step::Next { p, out } => Unwrapped::Done { consumed: stream::bytes_for(p), out },
        stream::Step::Bad => Unwrapped::BadData,
        stream::Step::NoSpace => Unwrapped::NoSpace,
    }
}

/// Unwrap the zlib stream at the start of `data`.
pub open spec fn zlib(data: Seq<u8>, cap: int) -> Unwrapped {
    if !zlib_header(data) {
        Unwrapped::BadHeader
    } else {
        match deflate(data.subrange(2, data.len() - 4), cap) {
            Unwrapped::Done { consumed, out } => {
                if be32(data, 2 + consumed) == adler32::adler32_spec(1, out) {
                    Unwrapped::Done { consumed: consumed + 6, out }
                } else {
                    Unwrapped::BadFooter
                }
            },
            e => e,
        }
    }
}

/// The position of the first zero byte at or after `pos`, or the length.
pub open spec fn zero_from(data: Seq<u8>, pos: int) -> int
    decreases data.len() - pos,
{
    if pos >= data.len() {
        data.len() as int
    } else if data[pos] == 0 {
        pos
    } else {
        zero_from(data, pos + 1)
    }
}

/// The position after a zero-terminated string at `pos`, with room for the
/// footer behind it.
pub open spec fn skip_string(data: Seq<u8>, pos: int) -> Option<int> {
    let z = zero_from(data, pos);
    if z >= data.len() || data.len() - (z + 1) < 8 {
        None
    } else {
        Some(z + 1)
    }
}

/// The position after the extra field of a gzip header, where there is one.
pub open spec fn gzip_extra(data: Seq<u8>, pos: int) -> Option<int> {
    if (data[3] / 4) % 2 == 0 {
        Some(pos)
    } else {
        let xlen = data[pos] + 256 * data[pos + 1];
        if data.len() - (pos + 2) < xlen + 8 {
            None
        } else {
            Some(pos + 2 + xlen)
        }
    }
}

/// The position after the file name of a gzip header, where there is one.
pub open spec fn gzip_name(data: Seq<u8>, pos: int) -> Option<int> {
    if (data[3] / 8) % 2 == 0 {
        Some(pos)
    } else {
        skip_string(data, pos)
    }
}

/// The position after the comment of a gzip header, where there is one.
pub open spec fn gzip_comment(data: Seq<u8>, pos: int) -> Option<int> {
    if (data[3] / 16) % 2 == 0 {
        Some(pos)
    } else {
        skip_string(data, pos)
    }
}

/// The position after the checksum of a gzip header, where there is one.
pub open spec fn gzip_hcrc(data: Seq<u8>, pos: int) -> Option<int> {
    if (data[3] / 2) % 2 == 0 {
        Some(pos)
    } else if data.len() - (pos + 2) < 8 {
        None
    } else {
        Some(pos + 2)
    }
}

/// The length of a valid gzip header.
pub open spec fn gzip_header(data: Seq<u8>) -> Option<int> {
    if data.len() < 18 || data[0] != 0x1F || data[1] != 0x8B || data[2] != 8 || data[3] >= 32 {
        None
    } else {
        match gzip_extra(data, 10) {
            None => None,
            Some(a) => match gzip_name(data, a) {
                None => None,
                Some(b) => match gzip_comment(data, b) {
                    None => None,
                    Some(c) => gzip_hcrc(data, c),
                },
            },
        }
    }
}

/// Unwrap the gzip member at the start of `data`.
pub open spec fn gzip(data: Seq<u8>, cap: int) -> Unwrapped {
    match gzip_header(data) {
        None => Unwrapped::BadHeader,
        Some(h) => match deflate(data.subrange(h, data.len() - 8), cap) {
            Unwrapped::Done { consumed, out } => {
                if fast_bytes::le32(data, h + consumed) == crc32::crc32_spec(0, out)
                    && fast_bytes::le32(data, h + consumed + 4) == out.len() as int % 0x1_0000_0000 {
                    Unwrapped::Done { consumed: h + consumed + 8, out }
                } else {
                    Unwrapped::BadFooter
                }
            },
            e => e,
        },
    }
}

pub proof fn lemma_zero_from(data: Seq<u8>, pos: int)
    requires
        0 <= pos <= data.len(),
    ensures
        pos <= zero_from(data, pos) <= data.len(),
    decreases data.len() - pos,
{
    if pos < data.len() && data[pos] != 0 {
        lemma_zero_from(data, pos + 1);
    }
}

/// A valid gzip header leaves room for the footer.
pub proof fn lemma_gzip_header(data: Seq<u8>)
    ensures
        gzip_header(data) matches Some(h) ==> 10 <= h <= data.len() - 8,
{
    if data.len() >= 18 {
        let a = gzip_extra(data, 10);
        if a is Some {
            lemma_zero_from(data, a->0);
            let b = gzip_name(data, a->0);
            if b is Some {
                lemma_zero_from(data, b->0);
            }
        }
    }
}

/// What a gzip header may hold besides the method: whether the data is text, the six bytes
/// for the time and the system, and the optional parts.
pub struct GzipFields {
    pub text: bool,
    pub origin: Seq<u8>,
    pub extra: Option<Seq<u8>>,
    pub name: Option<Seq<u8>>,
    pub comment: Option<Seq<u8>>,
    pub check: Option<(u8, u8)>,
}

/// No byte is zero.
pub open spec fn zero_free(s: Seq<u8>) -> bool {
    forall|i: int| 0 <= i < s.len() ==> #[trigger] s[i] != 0
}

impl GzipFields {
    /// The fields can be written: the length of the extra field has two bytes, and strings
    /// end at their first zero byte.
    pub open spec fn valid(self) -> bool {
        &&& self.origin.len() == 6
        &&& (self.extra matches Some(x) ==> x.len() <= 65535)
        &&& (self.name matches Some(x) ==> zero_free(x))
        &&& (self.comment matches Some(x) ==> zero_free(x))
    }

    /// The flags that tell which parts there are.
    pub open spec fn flags(self) -> int {
        (if self.text {
            1int
        } else {
            0
        }) + (if self.check is Some {
            2int
        } else {
            0
        }) + (if self.extra is Some {
            4int
        } else {
            0
        }) + (if self.name is Some {
            8int
        } else {
            0
        }) + (if self.comment is Some {
            16int
        } else {
            0
        })
    }

    /// The bytes of the extra field.
    pub open spec fn extra_bytes(self) -> Seq<u8> {
        match self.extra {
            Some(x) => seq![(x.len() % 256) as u8, (x.len() / 256) as u8] + x,
            None => Seq::empty(),
        }
    }

    /// The bytes of a string.
    pub open spec fn string_bytes(s: Option<Seq<u8>>) -> Seq<u8> {
        match s {
            Some(x) => x + seq![0u8],
            None => Seq::empty(),
        }
    }

    /// The bytes of the checksum of the header.
    pub open spec fn check_bytes(self) -> Seq<u8> {
        match self.check {
            Some(c) => seq![c.0, c.1],
            None => Seq::empty(),
        }
    }

    /// The bytes of the header.
    pub open spec fn bytes(self) -> Seq<u8> {
        seq![0x1Fu8, 0x8B, 8, self.flags() as u8] + self.origin + self.extra_bytes()
            + Self::string_bytes(self.name) + Self::string_bytes(self.comment) + self.check_bytes()
    }
}

/// The first zero byte behind bytes that are none.
pub proof fn lemma_zero_found(data: Seq<u8>, pos: int, z: int)
    requires
        0 <= pos <= z < data.len(),
        data[z] == 0,
        forall|i: int| pos <= i < z ==> #[trigger] data[i] != 0,
    ensures
        zero_from(data, pos) == z,
    decreases z - pos,
{
    if pos < z {
        lemma_zero_found(data, pos + 1, z);
    }
}

/// The bytes before the first zero byte are none.
pub proof fn lemma_zero_first(data: Seq<u8>, pos: int)
    requires
        0 <= pos <= data.len(),
    ensures
        pos <= zero_from(data, pos) <= data.len(),
        forall|i: int| pos <= i < zero_from(data, pos) ==> #[trigger] data[i] != 0,
        zero_from(data, pos) < data.len() ==> data[zero_from(data, pos)] == 0,
    decreases data.len() - pos,
{
    if pos < data.len() && data[pos] != 0 {
        lemma_zero_first(data, pos + 1);
    }
}

/// A string is skipped, however long it is.
proof fn lemma_string_skipped(data: Seq<u8>, pos: int, s: Seq<u8>)
    requires
        zero_free(s),
        0 <= pos,
        pos + s.len() + 1 + 8 <= data.len(),
        data.subrange(pos, pos + s.len() + 1) == s + seq![0u8],
    ensures
        skip_string(data, pos) == Some((pos + s.len() + 1) as int),
{
    let part = data.subrange(pos, pos + s.len() + 1);
    assert forall|i: int| pos <= i < pos + s.len() implies #[trigger] data[i] != 0 by {
        assert(part[i - pos] == s[i - pos]);
    }
    assert(part[s.len() as int] == 0);
    lemma_zero_found(data, pos, pos + s.len());
}

/// The flags tell which parts there are.
pub proof fn lemma_flags(f: GzipFields)
    ensures
        0 <= f.flags() < 32,
        (f.flags() / 2) % 2 == 1 <==> f.check is Some,
        (f.flags() / 4) % 2 == 1 <==> f.extra is Some,
        (f.flags() / 8) % 2 == 1 <==> f.name is Some,
        (f.flags() / 16) % 2 == 1 <==> f.comment is Some,
{
}

/// The parts of a header, one after the other.
#[verifier::spinoff_prover]
proof fn lemma_header_parts(f: GzipFields, data: Seq<u8>, b: int, c: int, d: int, e: int)
    requires
        f.valid(),
        data.len() >= 18,
        data[0] == 0x1F,
        data[1] == 0x8B,
        data[2] == 8,
        data[3] == f.flags(),
        10 <= b <= c <= d <= e,
        e + 8 <= data.len(),
        data.subrange(10, b) == f.extra_bytes(),
        data.subrange(b, c) == GzipFields::string_bytes(f.name),
        data.subrange(c, d) == GzipFields::string_bytes(f.comment),
        data.subrange(d, e) == f.check_bytes(),
    ensures
        gzip_header(data) == Some(e),
{
    lemma_flags(f);
    assert(data.subrange(10, b).len() == b - 10);
    assert(data.subrange(b, c).len() == c - b);
    assert(data.subrange(c, d).len() == d - c);
    assert(data.subrange(d, e).len() == e - d);
    assert(gzip_extra(data, 10) == Some(b)) by {
        if let Some(x) = f.extra {
            let n = x.len() as int;
            assert(data[10] == data.subrange(10, b)[0]);
            assert(data[11] == data.subrange(10, b)[1]);
            assert(n == n % 256 + 256 * (n / 256));
        }
    }
    assert(gzip_name(data, b) == Some(c)) by {
        if let Some(s) = f.name {
            lemma_string_skipped(data, b, s);
        }
    }
    assert(gzip_comment(data, c) == Some(d)) by {
        if let Some(s) = f.comment {
            lemma_string_skipped(data, c, s);
        }
    }
}

/// Every header of the format is accepted, and its length is known: with any extra field,
/// any name and comment, however long they are, and any checksum, as long as there is room
/// for a footer behind it.
#[verifier::spinoff_prover]
#[verifier::rlimit(60)]
pub proof fn law_gzip_header_accepted(f: GzipFields, rest: Seq<u8>)
    requires
        f.valid(),
        rest.len() >= 8,
    ensures
        gzip_header(f.bytes() + rest) == Some(f.bytes().len() as int),
{
    let a = seq![0x1Fu8, 0x8B, 8, f.flags() as u8];
    let x = f.extra_bytes();
    let y = GzipFields::string_bytes(f.name);
    let z = GzipFields::string_bytes(f.comment);
    let w = f.check_bytes();
    let data = a + f.origin + x + y + z + w + rest;
    let b = 10 + x.len() as int;
    let c = b + y.len() as int;
    let d = c + z.len() as int;
    let e = d + w.len() as int;
    assert(0 <= f.flags() < 32) by {
        lemma_flags(f);
    }
    assert(data[0] == a[0] && data[1] == a[1] && data[2] == a[2] && data[3] == a[3]);
    assert(data.subrange(10, b) =~= x);
    assert(data.subrange(b, c) =~= y);
    assert(data.subrange(c, d) =~= z);
    assert(data.subrange(d, e) =~= w);
    lemma_header_parts(f, data, b, c, d, e);
}

/// Only headers of the format are accepted.
#[verifier::spinoff_prover]
#[verifier::rlimit(60)]
pub proof fn law_gzip_header_valid(data: Seq<u8>) -> (f: GzipFields)
    requires
        gzip_header(data) is Some,
    ensures
        f.valid(),
        f.bytes() == data.take(gzip_header(data)->0),
        gzip_header(data)->0 + 8 <= data.len(),
{
    let fl = data[3] as int;
    let a = gzip_extra(data, 10)->0;
    lemma_zero_first(data, a);
    let b = gzip_name(data, a)->0;
    lemma_zero_first(data, b);
    let c = gzip_comment(data, b)->0;
    let d = gzip_hcrc(data, c)->0;
    let f = GzipFields {
        text: fl % 2 == 1,
        origin: data.subrange(4, 10),
        extra: if (fl / 4) % 2 == 0 {
            None
        } else {
            Some(data.subrange(12, a))
        },
        name: if (fl / 8) % 2 == 0 {
            None
        } else {
            Some(data.subrange(a, b - 1))
        },
        comment: if (fl / 16) % 2 == 0 {
            None
        } else {
            Some(data.subrange(b, c - 1))
        },
        check: if (fl / 2) % 2 == 0 {
            None
        } else {
            Some((data[c], data[c + 1]))
        },
    };
    if let Some(x) = f.name {
        assert forall|i: int| 0 <= i < x.len() implies #[trigger] x[i] != 0 by {
            assert(x[i] == data[a + i]);
        }
    }
    if let Some(x) = f.comment {
        assert forall|i: int| 0 <= i < x.len() implies #[trigger] x[i] != 0 by {
            assert(x[i] == data[b + i]);
        }
    }
    assert(f.flags() == fl);
    assert(f.extra_bytes() =~= data.subrange(10, a)) by {
        if let Some(x) = f.extra {
            let n = data[10] + 256 * data[11];
            assert(x.len() == n);
            assert(n % 256 == data[10] && n / 256 == data[11]);
        }
    }
    assert(GzipFields::string_bytes(f.name) =~= data.subrange(a, b));
    assert(GzipFields::string_bytes(f.comment) =~= data.subrange(b, c));
    assert(f.check_bytes() =~= data.subrange(c, d));
    assert(f.bytes() =~= data.take(d));
    f
}

/// The bytes are the number, least significant first.
pub open spec fn is_le32(b: Seq<u8>, v: int) -> bool {
    &&& b.len() == 4
    &&& b[0] == v % 256
    &&& b[1] == v / 256 % 256
    &&& b[2] == v / 65536 % 256
    &&& b[3] == v / 16777216 % 256
}

/// The bytes are the number, most significant first.
pub open spec fn is_be32(b: Seq<u8>, v: int) -> bool {
    &&& b.len() == 4
    &&& b[0] == v / 16777216 % 256
    &&& b[1] == v / 65536 % 256
    &&& b[2] == v / 256 % 256
    &&& b[3] == v % 256
}

/// Four bytes have one value.
pub proof fn lemma_bytes_of(b: Seq<u8>, v: int)
    requires
        b.len() == 4,
        0 <= v < 0x1_0000_0000,
    ensures
        is_le32(b, v) == (fast_bytes::le32(b, 0) == v),
        is_be32(b, v) == (be32(b, 0) == v),
{
    let w = v / 256;
    let x = w / 256;
    let y = x / 256;
    assert(v / 65536 == x && v / 16777216 == y);
    assert(y % 256 == y);
    assert(v == v % 256 + 256 * (w % 256) + 65536 * (x % 256) + 16777216 * y);
}

/// A gzip member is a header, DEFLATE data and a footer: with any header of the format, and
/// whatever follows, it is unwrapped to what the data holds if the footer is the CRC-32 and
/// the length of that, each with all of its four bytes, and is refused if it is not.
pub proof fn law_gzip_member(
    f: GzipFields,
    body: Seq<u8>,
    sum: Seq<u8>,
    size: Seq<u8>,
    ext: Seq<u8>,
    cap: int,
    out: Seq<u8>,
)
    requires
        f.valid(),
        sum.len() == 4,
        size.len() == 4,
        deflate(body + (sum + size + ext).take(ext.len() as int), cap) == (Unwrapped::Done {
            consumed: body.len() as int,
            out,
        }),
    ensures
        gzip(f.bytes() + body + sum + size + ext, cap) == if is_le32(
            sum,
            crc32::crc32_spec(0, out) as int,
        ) && is_le32(size, out.len() as int % 0x1_0000_0000) {
            Unwrapped::Done { consumed: (f.bytes() + body + sum + size).len() as int, out }
        } else {
            Unwrapped::BadFooter
        },
{
    let head = f.bytes();
    let data = head + body + sum + size + ext;
    let h = head.len() as int;
    let n = body.len() as int;
    assert(gzip_header(data) == Some(h)) by {
        assert(data =~= head + (body + sum + size + ext));
        law_gzip_header_accepted(f, body + sum + size + ext);
    }
    lemma_gzip_footer(head, body, sum, size, ext, cap, out);
}

/// The footer of a gzip member.
#[verifier::spinoff_prover]
proof fn lemma_gzip_footer(
    head: Seq<u8>,
    body: Seq<u8>,
    sum: Seq<u8>,
    size: Seq<u8>,
    ext: Seq<u8>,
    cap: int,
    out: Seq<u8>,
)
    requires
        gzip_header(head + body + sum + size + ext) == Some(head.len() as int),
        sum.len() == 4,
        size.len() == 4,
        deflate(body + (sum + size + ext).take(ext.len() as int), cap) == (Unwrapped::Done {
            consumed: body.len() as int,
            out,
        }),
    ensures
        gzip(head + body + sum + size + ext, cap) == if is_le32(
            sum,
            crc32::crc32_spec(0, out) as int,
        ) && is_le32(size, out.len() as int % 0x1_0000_0000) {
            Unwrapped::Done { consumed: (head + body + sum + size).len() as int, out }
        } else {
            Unwrapped::BadFooter
        },
{
    let data = head + body + sum + size + ext;
    let h = head.len() as int;
    let n = body.len() as int;
    assert(data.subrange(h, data.len() - 8) =~= body + (sum + size + ext).take(
        ext.len() as int,
    ));
    assert(data[h + n] == sum[0] && data[h + n + 1] == sum[1] && data[h + n + 2] == sum[2]
        && data[h + n + 3] == sum[3]);
    assert(data[h + n + 4] == size[0] && data[h + n + 5] == size[1] && data[h + n + 6] == size[2]
        && data[h + n + 7] == size[3]);
    lemma_bytes_of(sum, crc32::crc32_spec(0, out) as int);
    lemma_bytes_of(size, out.len() as int % 0x1_0000_0000);
}

/// A zlib stream is a header, DEFLATE data and a footer: with any valid header, and whatever
/// follows, it is unwrapped to what the data holds if the footer is the Adler-32 of that,
/// with all of its four bytes, and is refused if it is not.
pub proof fn law_zlib_stream(
    head: Seq<u8>,
    body: Seq<u8>,
    sum: Seq<u8>,
    ext: Seq<u8>,
    cap: int,
    out: Seq<u8>,
)
    requires
        head.len() == 2,
        zlib_header(head + body + sum + ext),
        sum.len() == 4,
        deflate(body + (sum + ext).take(ext.len() as int), cap) == (Unwrapped::Done {
            consumed: body.len() as int,
            out,
        }),
    ensures
        zlib(head + body + sum + ext, cap) == if is_be32(
            sum,
            adler32::adler32_spec(1, out) as int,
        ) {
            Unwrapped::Done { consumed: (head + body + sum).len() as int, out }
        } else {
            Unwrapped::BadFooter
        },
{
    let data = head + body + sum + ext;
    let n = body.len() as int;
    assert(data.subrange(2, data.len() - 4) =~= body + (sum + ext).take(ext.len() as int));
    assert(data[2 + n] == sum[0] && data[3 + n] == sum[1] && data[4 + n] == sum[2] && data[5 + n]
        == sum[3]);
    lemma_bytes_of(sum, adler32::adler32_spec(1, out) as int);
}

/// The second byte of the zlib header for a window of 2 to the power of `8 + window` bytes
/// and a compression level from 0 to 3: the level in the top two bits, no preset dictionary,
/// and what makes the two bytes a multiple of 31.
pub open spec fn zlib_second(window: int, level: int) -> int {
    64 * level + (30 - (256 * (8 + 16 * window) + 64 * level + 30) % 31)
}

/// The headers of the format are accepted, for each size of the window and each level, and no
/// others are.
pub proof fn law_zlib_header(data: Seq<u8>)
    ensures
        zlib_header(data) <==> data.len() >= 6 && exists|window: int, level: int|
            0 <= window <= 7 && 0 <= level <= 3 && data[0] == 8 + 16 * window && data[1]
                == #[trigger] zlib_second(window, level),
{
    if data.len() >= 6 {
        let w = data[0] as int / 16;
        let l = data[1] as int / 64;
        if zlib_header(data) {
            assert(data[0] == 8 + 16 * w);
            let k = data[1] as int % 64;
            assert(k < 32);
            assert(data[1] == 64 * l + k);
            let x = 256 * (8 + 16 * w) + 64 * l;
            assert((x + k) % 31 == 0);
            assert(data[1] == zlib_second(w, l) || k == 31);
            assert(0 <= zlib_second(w, l));
        }
        if exists|window: int, level: int|
            0 <= window <= 7 && 0 <= level <= 3 && data[0] == 8 + 16 * window && data[1]
                == #[trigger] zlib_second(window, level) {
            let (window, level) = choose|window: int, level: int|
                0 <= window <= 7 && 0 <= level <= 3 && data[0] == 8 + 16 * window && data[1]
                    == #[trigger] zlib_second(window, level);
            let x = 256 * (8 + 16 * window) + 64 * level;
            assert((x + (30 - (x + 30) % 31)) % 31 == 0);
        }
    }
}

/// Data that does not begin with a header of the zlib format, with room for data and a footer
/// behind it, is refused for its header; with such a header, invalid DEFLATE data is refused
/// as such, and data that does not fit is not.
pub proof fn law_zlib_refused(data: Seq<u8>, cap: int)
    ensures
        zlib(data, cap) is BadHeader <==> !(data.len() >= 6 && exists|window: int, level: int|
            0 <= window <= 7 && 0 <= level <= 3 && data[0] == 8 + 16 * window && data[1]
                == #[trigger] zlib_second(window, level)),
        !(zlib(data, cap) is BadHeader) ==> {
            let body = deflate(data.subrange(2, data.len() - 4), cap);
            &&& zlib(data, cap) is BadData <==> body is BadData
            &&& zlib(data, cap) is NoSpace <==> body is NoSpace
        },
{
    law_zlib_header(data);
}

/// The data begins with a header of the gzip format, with room for a footer behind it.
pub open spec fn begins_member(data: Seq<u8>, f: GzipFields) -> bool {
    &&& f.valid()
    &&& f.bytes().len() + 8 <= data.len()
    &&& f.bytes() == data.take(f.bytes().len() as int)
}

/// Data that does not begin with a header of the gzip format, with room for a footer behind it,
/// is refused for its header; with such a header, invalid DEFLATE data is refused as such, and
/// data that does not fit is not.
pub proof fn law_gzip_refused(data: Seq<u8>, cap: int)
    ensures
        gzip(data, cap) is BadHeader <==> !(exists|f: GzipFields| #[trigger] begins_member(data, f)),
        forall|f: GzipFields| #[trigger]
            begins_member(data, f) ==> {
                let body = deflate(data.subrange(f.bytes().len() as int, data.len() - 8), cap);
                &&& gzip(data, cap) is BadData <==> body is BadData
                &&& gzip(data, cap) is NoSpace <==> body is NoSpace
            },
{
    if gzip_header(data) is Some {
        let f = law_gzip_header_valid(data);
        lemma_gzip_header(data);
        assert(begins_member(data, f));
    }
    assert forall|f: GzipFields| #[trigger] begins_member(data, f) implies gzip_header(data) == Some(
        f.bytes().len() as int,
    ) by {
        let n = f.bytes().len() as int;
        law_gzip_header_accepted(f, data.skip(n));
        assert(f.bytes() + data.skip(n) =~= data);
    }
}

} // verus!
