//! Little-endian loads from byte slices.

use crate::bits;
use vstd::arithmetic::power2::*;
use vstd::prelude::*;

verus! {

/// The number that the four bytes at `pos` form, least significant first.
pub open spec fn le32(data: Seq<u8>, pos: int) -> int {
    data[pos] + 256 * data[pos + 1] + 65536 * data[pos + 2] + 16777216 * data[pos + 3]
}

/// Load the byte at `pos`.
#[inline]
pub fn get_byte(data: &[u8], pos: usize) -> (r: u8)
    requires
        pos < data@.len(),
    ensures
        r == data@[pos as int],
{
    data[pos]
}

/// Load two bytes as a number.
#[inline]
pub fn load_u16_le(data: &[u8], pos: usize) -> (r: u16)
    requires
        pos + 2 <= data@.len(),
    ensures
        r == data@[pos as int] + 256 * data@[pos + 1],
{
    let n: usize = data.len();
    data[pos] as u16 + 256 * (data[pos + 1] as u16)
}

/// Load four bytes as a number.
#[inline]
pub fn load_u32_le(data: &[u8], pos: usize) -> (r: u32)
    requires
        pos + 4 <= data@.len(),
    ensures
        r == le32(data@, pos as int),
{
    let n: usize = data.len();
    data[pos] as u32 + 256 * (data[pos + 1] as u32) + 65536 * (data[pos + 2] as u32) + 16777216 * (
    data[pos + 3] as u32)
}

/// Load eight bytes as a number.
#[inline]
pub fn load_u64_le(data: &[u8], pos: usize) -> (r: u64)
    requires
        pos + 8 <= data@.len(),
    ensures
        r == le32(data@, pos as int) + 0x1_0000_0000 * le32(data@, pos + 4),
{
    let n: usize = data.len();
    load_u32_le(data, pos) as u64 + 0x1_0000_0000 * (load_u32_le(data, pos + 4) as u64)
}

/// Two loads of four bytes agree exactly where the bytes do.
pub proof fn lemma_le32_eq(a: Seq<u8>, i: int, b: Seq<u8>, j: int)
    ensures
        le32(a, i) == le32(b, j) <==> a[i] == b[j] && a[i + 1] == b[j + 1] && a[i + 2] == b[j + 2]
            && a[i + 3] == b[j + 3],
{
}

/// A two-byte load reads sixteen bits of the stream.
pub proof fn lemma_load16_bits(data: Seq<u8>, i: int)
    requires
        0 <= i,
        i + 2 <= data.len(),
    ensures
        bits::le_val(bits::to_bits(data), 8 * i, 16) == data[i] + 256 * data[i + 1],
{
    let b = bits::to_bits(data);
    lemma2_to64();
    bits::lemma_to_bits_byte(data, i);
    bits::lemma_to_bits_byte(data, i + 1);
    bits::lemma_le_split(b, 8 * i, 8, 8);
    assert(8 * i + 8 == 8 * (i + 1));
}

/// A four-byte load reads thirty-two bits of the stream.
pub proof fn lemma_load32_bits(data: Seq<u8>, i: int)
    requires
        0 <= i,
        i + 4 <= data.len(),
    ensures
        bits::le_val(bits::to_bits(data), 8 * i, 32) == le32(data, i),
{
    let b = bits::to_bits(data);
    lemma2_to64();
    lemma_load16_bits(data, i);
    lemma_load16_bits(data, i + 2);
    bits::lemma_le_split(b, 8 * i, 16, 16);
    assert(8 * i + 16 == 8 * (i + 2));
}

/// An eight-byte load reads sixty-four bits of the stream.
pub proof fn lemma_load64_bits(data: Seq<u8>, i: int)
    requires
        0 <= i,
        i + 8 <= data.len(),
    ensures
        bits::le_val(bits::to_bits(data), 8 * i, 64) == le32(data, i) + 0x1_0000_0000 * le32(
            data,
            i + 4,
        ),
{
    let b = bits::to_bits(data);
    lemma2_to64();
    lemma_load32_bits(data, i);
    lemma_load32_bits(data, i + 4);
    bits::lemma_le_split(b, 8 * i, 32, 32);
    assert(8 * i + 32 == 8 * (i + 4));
}

} // verus!
