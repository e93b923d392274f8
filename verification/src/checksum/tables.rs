//! Tables for the slice-by-8 CRC-32.

use vstd::prelude::*;

verus! {

/// The CRC-32 polynomial, least significant bit first.
pub const CRC32_POLY: u32 = 0xEDB88320;

/// Divide by the polynomial for one bit.
pub open spec fn crc_bit(c: u32) -> u32 {
    (c >> 1) ^ (if c & 1 == 1 {
        0xEDB88320u32
    } else {
        0u32
    })
}

/// Divide by the polynomial for eight bits.
pub open spec fn crc_shift(c: u32) -> u32 {
    crc_bit(crc_bit(crc_bit(crc_bit(crc_bit(crc_bit(crc_bit(crc_bit(c))))))))
}

/// Divide by the polynomial for `k` bytes of zeros.
pub open spec fn crc_shifts(c: u32, k: nat) -> u32
    decreases k,
{
    if k == 0 {
        c
    } else {
        crc_shift(crc_shifts(c, (k - 1) as nat))
    }
}

/// The first table: the division of each byte value.
pub open spec fn is_slice1(table: Seq<u32>) -> bool {
    &&& table.len() >= 256
    &&& forall|i: int| 0 <= i < 256 ==> #[trigger] table[i] == crc_shift(i as u32)
}

/// Eight tables of 256 entries: table `k` holds each byte value divided with
/// `k` zero bytes behind it.
pub open spec fn is_slice8(table: Seq<u32>) -> bool {
    &&& table.len() == 2048
    &&& forall|k: int, i: int|
        #![trigger table[256 * k + i]]
        0 <= k < 8 && 0 <= i < 256 ==> table[256 * k + i] == crc_shifts(i as u32, (k + 1) as nat)
}

proof fn lemma_crc_bit_linear(x: u32, y: u32)
    ensures
        crc_bit(x ^ y) == crc_bit(x) ^ crc_bit(y),
{
    assert(crc_bit(x ^ y) == crc_bit(x) ^ crc_bit(y)) by (bit_vector);
}

pub proof fn lemma_crc_linear(x: u32, y: u32)
    ensures
        crc_shift(x ^ y) == crc_shift(x) ^ crc_shift(y),
{
    let (x1, y1) = (crc_bit(x), crc_bit(y));
    let (x2, y2) = (crc_bit(x1), crc_bit(y1));
    let (x3, y3) = (crc_bit(x2), crc_bit(y2));
    let (x4, y4) = (crc_bit(x3), crc_bit(y3));
    let (x5, y5) = (crc_bit(x4), crc_bit(y4));
    let (x6, y6) = (crc_bit(x5), crc_bit(y5));
    let (x7, y7) = (crc_bit(x6), crc_bit(y6));
    lemma_crc_bit_linear(x, y);
    lemma_crc_bit_linear(x1, y1);
    lemma_crc_bit_linear(x2, y2);
    lemma_crc_bit_linear(x3, y3);
    lemma_crc_bit_linear(x4, y4);
    lemma_crc_bit_linear(x5, y5);
    lemma_crc_bit_linear(x6, y6);
    lemma_crc_bit_linear(x7, y7);
}

proof fn lemma_crc_bit_even(y: u32)
    requires
        y & 1 == 0,
    ensures
        crc_bit(y) == y >> 1,
{
    assert(crc_bit(y) == y >> 1) by (bit_vector)
        requires
            y & 1 == 0,
    ;
}

/// A number without a low byte is moved down.
pub proof fn lemma_crc_high(y: u32)
    requires
        y & 0xFF == 0,
    ensures
        crc_shift(y) == y >> 8,
{
    assert(y & 1 == 0 && (y >> 1) & 1 == 0 && (y >> 2) & 1 == 0 && (y >> 3) & 1 == 0 && (y >> 4) & 1
        == 0 && (y >> 5) & 1 == 0 && (y >> 6) & 1 == 0 && (y >> 7) & 1 == 0) by (bit_vector)
        requires
            y & 0xFF == 0,
    ;
    assert((y >> 1) >> 1 == y >> 2 && (y >> 2) >> 1 == y >> 3 && (y >> 3) >> 1 == y >> 4 && (y >> 4)
        >> 1 == y >> 5 && (y >> 5) >> 1 == y >> 6 && (y >> 6) >> 1 == y >> 7 && (y >> 7) >> 1 == y
        >> 8) by (bit_vector);
    lemma_crc_bit_even(y);
    lemma_crc_bit_even(y >> 1);
    lemma_crc_bit_even(y >> 2);
    lemma_crc_bit_even(y >> 3);
    lemma_crc_bit_even(y >> 4);
    lemma_crc_bit_even(y >> 5);
    lemma_crc_bit_even(y >> 6);
    lemma_crc_bit_even(y >> 7);
}

/// A shift takes the low byte through the table and moves the others down.
pub proof fn lemma_crc_split(x: u32)
    ensures
        crc_shift(x) == (x >> 8) ^ crc_shift(x & 0xFF),
        x & 0xFF < 256,
        x & 0xFF == x % 256,
{
    let hi = x & 0xFFFFFF00;
    let lo = x & 0xFF;
    assert(x == hi ^ lo && hi & 0xFF == 0 && hi >> 8 == x >> 8 && lo < 256 && lo == x % 256)
        by (bit_vector)
        requires
            hi == x & 0xFFFFFF00,
            lo == x & 0xFF,
    ;
    lemma_crc_linear(hi, lo);
    lemma_crc_high(hi);
}

/// Slice-by-1 table: the CRC of each possible byte value.
pub fn generate_slice1_table() -> (table: [u32; 256])
    ensures
        is_slice1(table@),
{
    let mut table: [u32; 256] = [0u32; 256];
    let mut i: u32 = 0;
    while i < 256
        invariant
            i <= 256,
            forall|j: int| 0 <= j < i ==> #[trigger] table@[j] == crc_shift(j as u32),
        decreases 256 - i,
    {
        let mut crc: u32 = i;
        let mut j: u32 = 0;
        while j < 8
            invariant
                j <= 8,
                crc == crc_bits(i, j as nat),
            decreases 8 - j,
        {
            if crc & 1 != 0 {
                proof {
                    assert(crc & 1 != 0 ==> crc & 1 == 1) by (bit_vector);
                }
                crc = (crc >> 1) ^ CRC32_POLY;
            } else {
                proof {
                    assert((crc >> 1) ^ 0 == crc >> 1) by (bit_vector);
                }
                crc = crc >> 1;
            }
            j = j + 1;
        }
        proof {
            reveal_with_fuel(crc_bits, 9);
            assert(crc_bits(i, 8) == crc_shift(i));
        }
        table[i as usize] = crc;
        i = i + 1;
    }
    table
}

spec fn crc_bits(c: u32, n: nat) -> u32
    decreases n,
{
    if n == 0 {
        c
    } else {
        crc_bit(crc_bits(c, (n - 1) as nat))
    }
}

/// One table look-up is a division for eight bits.
pub fn table_shift(table: &[u32], c: u32) -> (r: u32)
    requires
        is_slice1(table@),
    ensures
        r == crc_shift(c),
{
    proof {
        lemma_crc_split(c);
    }
    (c >> 8) ^ table[(c & 0xFF) as usize]
}

/// Slice-by-8 table: eight subtables of 256 entries each. Subtable 0 is the
/// slice-by-1 table, each entry of another one follows from the one before.
pub fn generate_slice8_table() -> (table: [u32; 2048])
    ensures
        is_slice8(table@),
        is_slice1(table@),
{
    let mut table: [u32; 2048] = [0u32; 2048];
    let slice1: [u32; 256] = generate_slice1_table();
    let mut i: usize = 0;
    while i < 256
        invariant
            i <= 256,
            is_slice1(slice1@),
            forall|j: int| 0 <= j < i ==> #[trigger] table@[j] == crc_shift(j as u32),
        decreases 256 - i,
    {
        table[i] = slice1[i];
        i = i + 1;
    }
    proof {
        assert forall|j: int| 0 <= j < 256 implies #[trigger] table@[j] == crc_shifts(
            j as u32,
            (j / 256 + 1) as nat,
        ) by {
            reveal_with_fuel(crc_shifts, 3);
        }
    }
    let mut n: usize = 256;
    while n < 2048
        invariant
            256 <= n <= 2048,
            is_slice1(slice1@),
            forall|j: int|
                0 <= j < n ==> #[trigger] table@[j] == crc_shifts(
                    (j % 256) as u32,
                    (j / 256 + 1) as nat,
                ),
        decreases 2048 - n,
    {
        let prev: u32 = table[n - 256];
        let v: u32 = table_shift(&slice1, prev);
        proof {
            assert((n - 256) % 256 == n as int % 256);
            assert((n - 256) / 256 == n as int / 256 - 1);
        }
        table[n] = v;
        n = n + 1;
    }
    proof {
        assert forall|k: int, i: int|
            #![trigger table@[256 * k + i]]
            0 <= k < 8 && 0 <= i < 256 implies table@[256 * k + i] == crc_shifts(
            i as u32,
            (k + 1) as nat,
        ) by {
            assert((256 * k + i) % 256 == i && (256 * k + i) / 256 == k);
        }
        assert forall|j: int| 0 <= j < 256 implies #[trigger] table@[j] == crc_shift(j as u32) by {
            reveal_with_fuel(crc_shifts, 3);
            assert(j % 256 == j && j / 256 == 0);
        }
    }
    table
}

/// No two numbers have the same division.
proof fn lemma_crc_bit_once(x: u32, y: u32)
    requires
        crc_bit(x) == crc_bit(y),
    ensures
        x == y,
{
    assert(x == y) by (bit_vector)
        requires
            crc_bit(x) == crc_bit(y),
    ;
}

/// The same for eight bits.
pub proof fn lemma_crc_once(x: u32, y: u32)
    requires
        crc_shift(x) == crc_shift(y),
    ensures
        x == y,
{
    let (x1, y1) = (crc_bit(x), crc_bit(y));
    let (x2, y2) = (crc_bit(x1), crc_bit(y1));
    let (x3, y3) = (crc_bit(x2), crc_bit(y2));
    let (x4, y4) = (crc_bit(x3), crc_bit(y3));
    let (x5, y5) = (crc_bit(x4), crc_bit(y4));
    let (x6, y6) = (crc_bit(x5), crc_bit(y5));
    let (x7, y7) = (crc_bit(x6), crc_bit(y6));
    lemma_crc_bit_once(x7, y7);
    lemma_crc_bit_once(x6, y6);
    lemma_crc_bit_once(x5, y5);
    lemma_crc_bit_once(x4, y4);
    lemma_crc_bit_once(x3, y3);
    lemma_crc_bit_once(x2, y2);
    lemma_crc_bit_once(x1, y1);
    lemma_crc_bit_once(x, y);
}

} // verus!
