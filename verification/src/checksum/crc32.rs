//! CRC-32 checksum, eight bytes at a time.

use crate::checksum::tables;
use crate::checksum::tables::{generate_slice1_table, generate_slice8_table, table_shift};
use crate::fast_bytes;
use crate::fast_bytes::load_u32_le;
use vstd::prelude::*;

verus! {

/// The remainder after one more byte.
pub open spec fn crc_byte(c: u32, b: u8) -> u32 {
    tables::crc_shift(c ^ (b as u32))
}

/// The remainder after `data`, from the remainder `c`.
pub open spec fn crc_bytes(c: u32, data: Seq<u8>) -> u32
    decreases data.len(),
{
    if data.len() == 0 {
        c
    } else {
        crc_byte(crc_bytes(c, data.drop_last()), data.last())
    }
}

/// The CRC-32 checksum of `data`, continuing from `crc`: the remainder is
/// complemented before and after.
pub open spec fn crc32_spec(crc: u32, data: Seq<u8>) -> u32 {
    !crc_bytes(!crc, data)
}

pub proof fn lemma_crc_concat(c: u32, a: Seq<u8>, b: Seq<u8>)
    ensures
        crc_bytes(c, a + b) == crc_bytes(crc_bytes(c, a), b),
    decreases b.len(),
{
    if b.len() == 0 {
        assert(a + b =~= a);
    } else {
        lemma_crc_concat(c, a, b.drop_last());
        assert((a + b).drop_last() =~= a + b.drop_last());
        assert((a + b).last() == b.last());
    }
}

/// Continuing a checksum over more data gives the checksum of all of it.
pub proof fn law_crc32_incremental(crc: u32, a: Seq<u8>, b: Seq<u8>)
    ensures
        crc32_spec(crc32_spec(crc, a), b) == crc32_spec(crc, a + b),
{
    lemma_crc_concat(!crc, a, b);
    let x = crc_bytes(!crc, a);
    assert(!(!x) == x) by (bit_vector);
}

/// `k` shifts are linear.
proof fn lemma_shifts_linear(x: u32, y: u32, k: nat)
    ensures
        tables::crc_shifts(x ^ y, k) == tables::crc_shifts(x, k) ^ tables::crc_shifts(y, k),
    decreases k,
{
    if k > 0 {
        lemma_shifts_linear(x, y, (k - 1) as nat);
        tables::lemma_crc_linear(
            tables::crc_shifts(x, (k - 1) as nat),
            tables::crc_shifts(y, (k - 1) as nat),
        );
    }
}

proof fn lemma_shifts_add(x: u32, j: nat, k: nat)
    ensures
        tables::crc_shifts(tables::crc_shifts(x, j), k) == tables::crc_shifts(x, j + k),
    decreases k,
{
    if k > 0 {
        lemma_shifts_add(x, j, (k - 1) as nat);
    }
}

/// A byte that was moved up moves down again.
proof fn lemma_raised(b: u32)
    requires
        b < 256,
    ensures
        tables::crc_shift(b << 8) == b,
        tables::crc_shift(b << 16) == b << 8,
        tables::crc_shift(b << 24) == b << 16,
{
    assert((b << 8) & 0xFF == 0 && (b << 16) & 0xFF == 0 && (b << 24) & 0xFF == 0 && (b << 8) >> 8
        == b && (b << 16) >> 8 == b << 8 && (b << 24) >> 8 == b << 16) by (bit_vector)
        requires
            b < 256,
    ;
    tables::lemma_crc_high(b << 8);
    tables::lemma_crc_high(b << 16);
    tables::lemma_crc_high(b << 24);
}

/// Four bytes with `k` zero bytes behind them: each byte on its own.
proof fn lemma_word(b0: u32, b1: u32, b2: u32, b3: u32, k: nat)
    requires
        b0 < 256,
        b1 < 256,
        b2 < 256,
        b3 < 256,
    ensures
        tables::crc_shifts(b0 ^ (b1 << 8) ^ (b2 << 16) ^ (b3 << 24), k + 4) == tables::crc_shifts(
            b0,
            k + 4,
        ) ^ tables::crc_shifts(b1, k + 3) ^ tables::crc_shifts(b2, k + 2) ^ tables::crc_shifts(
            b3,
            k + 1,
        ),
{
    lemma_shifts_linear(b0 ^ (b1 << 8) ^ (b2 << 16), b3 << 24, k + 4);
    lemma_shifts_linear(b0 ^ (b1 << 8), b2 << 16, k + 4);
    lemma_shifts_linear(b0, b1 << 8, k + 4);
    lemma_raised(b1);
    lemma_raised(b2);
    lemma_raised(b3);
    reveal_with_fuel(tables::crc_shifts, 4);
    assert(tables::crc_shifts(b1 << 8, 1) == b1);
    assert(tables::crc_shifts(b2 << 16, 2) == b2);
    assert(tables::crc_shifts(b3 << 24, 3) == b3);
    lemma_shifts_add(b1 << 8, 1, k + 3);
    lemma_shifts_add(b2 << 16, 2, k + 2);
    lemma_shifts_add(b3 << 24, 3, k + 1);
}

/// Taking in four bytes is taking in their little-endian word and shifting four times.
proof fn lemma_four_bytes(c: u32, d: Seq<u8>, v: u32)
    requires
        d.len() == 4,
        v == fast_bytes::le32(d, 0),
    ensures
        crc_bytes(c, d) == tables::crc_shifts(c ^ v, 4),
{
    let b0 = d[0] as u32;
    let b1 = d[1] as u32;
    let b2 = d[2] as u32;
    let b3 = d[3] as u32;
    assert(v == b0 ^ (b1 << 8) ^ (b2 << 16) ^ (b3 << 24)) by (bit_vector)
        requires
            b0 < 256,
            b1 < 256,
            b2 < 256,
            b3 < 256,
            v == b0 + 256 * b1 + 65536 * b2 + 16777216 * b3,
    ;
    assert(tables::crc_shift(tables::crc_shift(
        tables::crc_shift(tables::crc_shift(c ^ b0) ^ b1) ^ b2,
    ) ^ b3) == tables::crc_shift(
        tables::crc_shift(tables::crc_shift(tables::crc_shift(c ^ v))),
    )) by {
        lemma_feed(c ^ b0, b1, b2, b3);
        assert((c ^ b0) ^ (b1 << 8) ^ (b2 << 16) ^ (b3 << 24) == c ^ v) by (bit_vector)
            requires
                v == b0 ^ (b1 << 8) ^ (b2 << 16) ^ (b3 << 24),
        ;
    }
    reveal_with_fuel(crc_bytes, 5);
    reveal_with_fuel(tables::crc_shifts, 5);
    let d3 = d.drop_last();
    let d2 = d3.drop_last();
    let d1 = d2.drop_last();
    let d0 = d1.drop_last();
    assert(d0.len() == 0);
    assert(d1.last() == d[0] && d2.last() == d[1] && d3.last() == d[2] && d.last() == d[3]);
}

proof fn lemma_feed(x: u32, b1: u32, b2: u32, b3: u32)
    requires
        b1 < 256,
        b2 < 256,
        b3 < 256,
    ensures
        tables::crc_shift(tables::crc_shift(tables::crc_shift(tables::crc_shift(x) ^ b1) ^ b2) ^ b3)
            == tables::crc_shift(
            tables::crc_shift(
                tables::crc_shift(
                    tables::crc_shift(x ^ (b1 << 8) ^ (b2 << 16) ^ (b3 << 24)),
                ),
            ),
        ),
{
    let y1 = b1 << 8;
    let y2 = b2 << 16;
    let y3 = b3 << 24;
    tables::lemma_crc_linear(x ^ y1 ^ y2, y3);
    tables::lemma_crc_linear(x ^ y1, y2);
    tables::lemma_crc_linear(x, y1);
    let z2 = tables::crc_shift(y2);
    let z3 = tables::crc_shift(y3);
    lemma_raised(b1);
    lemma_raised(b2);
    lemma_raised(b3);
    // after one shift
    let s1 = tables::crc_shift(x) ^ b1;
    tables::lemma_crc_linear(s1 ^ z2, z3);
    tables::lemma_crc_linear(s1, z2);
    // after two shifts
    let s2 = tables::crc_shift(s1) ^ b2;
    let w3 = tables::crc_shift(z3);
    tables::lemma_crc_linear(s2, w3);
}

/// The remainder after one more byte, by table.
fn crc_update(table: &[u32], c: u32, b: u8) -> (r: u32)
    requires
        tables::is_slice1(table@),
    ensures
        r == crc_byte(c, b),
{
    table_shift(table, c ^ (b as u32))
}

/// Process data in 8-byte groups using eight table lookups, with single bytes
/// in front to make the rest a multiple of eight.
fn crc32_slice8(crc: u32, data: &[u8]) -> (r: u32)
    ensures
        r == crc_bytes(crc, data@),
{
    let table: [u32; 2048] = generate_slice8_table();
    let n: usize = data.len();
    let lead: usize = n % 8;
    let mut c: u32 = crc;
    let mut i: usize = 0;
    proof {
        assert(data@.take(0) =~= Seq::empty());
    }
    while i < lead
        invariant
            i <= lead <= n == data@.len(),
            tables::is_slice1(table@),
            c == crc_bytes(crc, data@.take(i as int)),
        decreases lead - i,
    {
        proof {
            assert(data@.take(i + 1).drop_last() =~= data@.take(i as int));
        }
        c = crc_update(&table, c, data[i]);
        i = i + 1;
    }
    while i < n
        invariant
            i <= n == data@.len(),
            (n - i) % 8 == 0,
            tables::is_slice8(table@),
            c == crc_bytes(crc, data@.take(i as int)),
        decreases n - i,
    {
        let v1: u32 = load_u32_le(data, i);
        let v2: u32 = load_u32_le(data, i + 4);
        let x: u32 = c ^ v1;
        let ghost b = (x & 0xFF, (x >> 8) & 0xFF, (x >> 16) & 0xFF, x >> 24);
        let ghost d = (v2 & 0xFF, (v2 >> 8) & 0xFF, (v2 >> 16) & 0xFF, v2 >> 24);
        proof {
            lemma_bytes_of(x);
            lemma_bytes_of(v2);
            lemma_word(b.0, b.1, b.2, b.3, 4);
            lemma_word(d.0, d.1, d.2, d.3, 0);
            let q1 = data@.subrange(i as int, i + 4);
            let q2 = data@.subrange(i + 4, i + 8);
            lemma_four_bytes(c, q1, v1);
            lemma_four_bytes(tables::crc_shifts(x, 4), q2, v2);
            lemma_shifts_linear(tables::crc_shifts(x, 4), v2, 4);
            lemma_shifts_add(x, 4, 4);
            lemma_crc_concat(crc, data@.take(i as int), q1);
            lemma_crc_concat(crc, data@.take(i as int) + q1, q2);
            assert(data@.take(i as int) + q1 + q2 =~= data@.take(i + 8));
            let t = table@;
            assert(t[256 * 7 + b.0 as int] == tables::crc_shifts(b.0, 8));
            assert(t[256 * 6 + b.1 as int] == tables::crc_shifts(b.1, 7));
            assert(t[256 * 5 + b.2 as int] == tables::crc_shifts(b.2, 6));
            assert(t[256 * 4 + b.3 as int] == tables::crc_shifts(b.3, 5));
            assert(t[256 * 3 + d.0 as int] == tables::crc_shifts(d.0, 4));
            assert(t[256 * 2 + d.1 as int] == tables::crc_shifts(d.1, 3));
            assert(t[256 * 1 + d.2 as int] == tables::crc_shifts(d.2, 2));
            assert(t[256 * 0 + d.3 as int] == tables::crc_shifts(d.3, 1));
        }
        let hi: u32 = table[0x700 + (x & 0xFF) as usize] ^ table[0x600 + ((x >> 8) & 0xFF) as usize]
            ^ table[0x500 + ((x >> 16) & 0xFF) as usize] ^ table[0x400 + (x >> 24) as usize];
        let lo: u32 = table[0x300 + (v2 & 0xFF) as usize] ^ table[0x200 + ((v2 >> 8) & 0xFF) as usize]
            ^ table[0x100 + ((v2 >> 16) & 0xFF) as usize] ^ table[(v2 >> 24) as usize];
        c = hi ^ lo;
        i = i + 8;
    }
    proof {
        assert(data@.take(n as int) =~= data@);
    }
    c
}

proof fn lemma_bytes_of(x: u32)
    ensures
        x == (x & 0xFF) ^ (((x >> 8) & 0xFF) << 8) ^ (((x >> 16) & 0xFF) << 16) ^ ((x >> 24) << 24),
        x & 0xFF < 256,
        (x >> 8) & 0xFF < 256,
        (x >> 16) & 0xFF < 256,
        x >> 24 < 256,
{
    assert(x == (x & 0xFF) ^ (((x >> 8) & 0xFF) << 8) ^ (((x >> 16) & 0xFF) << 16) ^ ((x >> 24)
        << 24) && x & 0xFF < 256 && (x >> 8) & 0xFF < 256 && (x >> 16) & 0xFF < 256 && x >> 24
        < 256) by (bit_vector);
}

/// Compute the CRC-32 checksum of `data`, continuing from `crc`.
///
/// To compute from scratch, pass `crc = 0`. To continue a running checksum,
/// pass the previous return value.
pub fn crc32(crc: u32, data: &[u8]) -> (r: u32)
    ensures
        r == crc32_spec(crc, data@),
{
    if data.len() == 0 {
        proof {
            assert(!(!crc) == crc) by (bit_vector);
        }
        return crc;
    }
    !crc32_slice8(!crc, data)
}

/// Feeding data into a remainder is shifting the remainder and adding what the
/// data gives on its own.
proof fn lemma_crc_bytes_linear(x: u32, y: u32, data: Seq<u8>)
    ensures
        crc_bytes(x ^ y, data) == tables::crc_shifts(x, data.len()) ^ crc_bytes(y, data),
    decreases data.len(),
{
    if data.len() > 0 {
        let d = data.drop_last();
        lemma_crc_bytes_linear(x, y, d);
        let p = tables::crc_shifts(x, d.len());
        let q = crc_bytes(y, d);
        let b = data.last() as u32;
        assert((p ^ q) ^ b == p ^ (q ^ b)) by (bit_vector);
        tables::lemma_crc_linear(p, q ^ b);
    }
}

/// Combine the checksums of two pieces of data, the second of `len2` bytes,
/// into the checksum of both, one after the other.
pub fn crc32_combine(crc1: u32, crc2: u32, len2: usize) -> (r: u32)
    ensures
        forall|a: Seq<u8>, b: Seq<u8>|
            crc1 == #[trigger] crc32_spec(0, a) && crc2 == #[trigger] crc32_spec(0, b) && b.len()
                == len2 ==> r == crc32_spec(0, a + b),
        r == tables::crc_shifts(crc1, len2 as nat) ^ crc2,
{
    let table: [u32; 256] = generate_slice1_table();
    let mut c: u32 = crc1;
    let mut i: usize = 0;
    while i < len2
        invariant
            i <= len2,
            tables::is_slice1(table@),
            c == tables::crc_shifts(crc1, i as nat),
        decreases len2 - i,
    {
        c = table_shift(&table, c);
        i = i + 1;
    }
    proof {
        assert forall|a: Seq<u8>, b: Seq<u8>|
            crc1 == #[trigger] crc32_spec(0, a) && crc2 == #[trigger] crc32_spec(0, b) && b.len()
                == len2 implies c ^ crc2 == crc32_spec(0, a + b) by {
            law_crc32_combine(a, b);
        }
    }
    c ^ crc2
}

/// The checksum of two pieces of data follows from the checksum of each.
pub proof fn law_crc32_combine(a: Seq<u8>, b: Seq<u8>)
    ensures
        crc32_spec(0, a + b) == tables::crc_shifts(crc32_spec(0, a), b.len()) ^ crc32_spec(0, b),
{
    let ones = !0u32;
    lemma_crc_concat(ones, a, b);
    let s = crc_bytes(ones, a);
    let z = crc32_spec(0, a);
    assert(z ^ ones == s) by (bit_vector)
        requires
            z == !s,
            ones == !0u32,
    ;
    lemma_crc_bytes_linear(z, ones, b);
    let t = tables::crc_shifts(z, b.len());
    let u = crc_bytes(ones, b);
    assert(!(t ^ u) == t ^ !u) by (bit_vector);
}

/// The same data takes different remainders to different ones.
proof fn lemma_crc_bytes_once(x: u32, y: u32, data: Seq<u8>)
    requires
        crc_bytes(x, data) == crc_bytes(y, data),
    ensures
        x == y,
    decreases data.len(),
{
    if data.len() > 0 {
        let d = data.drop_last();
        let p = crc_bytes(x, d);
        let q = crc_bytes(y, d);
        let b = data.last() as u32;
        tables::lemma_crc_once(p ^ b, q ^ b);
        assert(p == q) by (bit_vector)
            requires
                p ^ b == q ^ b,
        ;
        lemma_crc_bytes_once(x, y, d);
    }
}

/// No change of a single byte goes unnoticed: the checksum is another one.
pub proof fn law_crc32_notices(crc: u32, a: Seq<u8>, x: u8, y: u8, b: Seq<u8>)
    requires
        x != y,
    ensures
        crc32_spec(crc, a.push(x) + b) != crc32_spec(crc, a.push(y) + b),
{
    let c = crc_bytes(!crc, a);
    let p = crc_bytes(!crc, a.push(x));
    let q = crc_bytes(!crc, a.push(y));
    lemma_crc_concat(!crc, a.push(x), b);
    lemma_crc_concat(!crc, a.push(y), b);
    assert(a.push(x).drop_last() =~= a);
    assert(a.push(y).drop_last() =~= a);
    let u = crc_bytes(p, b);
    let v = crc_bytes(q, b);
    if !u == !v {
        assert(u == v) by (bit_vector)
            requires
                !u == !v,
        ;
        lemma_crc_bytes_once(p, q, b);
        let (s, t) = (x as u32, y as u32);
        tables::lemma_crc_once(c ^ s, c ^ t);
        assert(s == t) by (bit_vector)
            requires
                c ^ s == c ^ t,
        ;
    }
}

/// Data that is followed by its checksum, the least significant byte first, has the same
/// checksum whatever the data is.
pub proof fn law_crc32_residue(data: Seq<u8>, sum: Seq<u8>)
    requires
        sum.len() == 4,
        fast_bytes::le32(sum, 0) == crc32_spec(0, data),
    ensures
        crc32_spec(0, data + sum) == 0x2144DF1C,
{
    let ones = !0u32;
    let c = crc_bytes(ones, data);
    let v = crc32_spec(0, data);
    lemma_crc_concat(ones, data, sum);
    lemma_four_bytes(c, sum, v);
    assert(c ^ v == 0xFFFF_FFFFu32) by (bit_vector)
        requires
            v == !c,
    ;
    reveal_with_fuel(tables::crc_shifts, 5);
    assert(tables::crc_shift(
        tables::crc_shift(tables::crc_shift(tables::crc_shift(0xFFFF_FFFFu32))),
    ) == 0xDEBB20E3u32) by (bit_vector);
    assert(!0xDEBB20E3u32 == 0x2144DF1Cu32) by (bit_vector);
}

} // verus!
