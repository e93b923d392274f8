//! Decoding the parts of a block.

use crate::bits;
use crate::codes;
use crate::constants::DEFLATE_PRECODE_LENS_PERMUTATION;
use crate::decompress::reader::{take_bits, BitInput};
use crate::decompress::results;
use crate::decompress::table;
use crate::decompress::table::build_decode_table;
use crate::error::DecompressionError;
use crate::stream;
use vstd::arithmetic::power2::*;
use vstd::prelude::*;

verus! {

/// Index bits of the precode table.
pub const PRECODE_TABLEBITS: u32 = 7;

/// Index bits of the literal/length table.
pub const LITLEN_TABLEBITS: u32 = 11;

/// Index bits of the offset table.
pub const OFFSET_TABLEBITS: u32 = 8;

/// A table that decodes the code with the given codeword lengths.
pub open spec fn decodes(table: Seq<u32>, tb: u32, results: Seq<u32>, lens: Seq<u8>) -> bool {
    &&& 1 <= tb < 15
    &&& 1 <= lens.len() <= results.len()
    &&& codes::bounded(lens)
    &&& codes::decodable(lens)
    &&& table::results_ok(results)
    &&& pow2(tb as nat) <= table.len() <= 16384
    &&& table::table_ok(table, tb as nat, results, lens)
}

/// Look up the next symbol. Returns its table entry, with the part of the
/// codeword that has been consumed already taken off its length.
#[inline]
pub fn lookup<R: BitInput>(
    tab: &[u32],
    tb: u32,
    br: &mut R,
    res: Ghost<Seq<u32>>,
    lens: Ghost<Seq<u8>>,
) -> (e: u32)
    requires
        decodes(tab@, tb, res@, lens@),
        old(br).wf(),
        old(br).avail() >= 15,
    ensures
        final(br).data() == old(br).data(),
        final(br).staged() == old(br).staged(),
        final(br).wf(),
        forall|m: int| #[trigger]
            final(br).at_hand(m) == old(br).at_hand(m + (final(br).pos() - old(br).pos())),
        old(br).pos() <= final(br).pos(),
        final(br).avail() == old(br).avail() - (final(br).pos() - old(br).pos()),
        ({
            let (sym, n) = stream::sym_at(bits::to_bits(old(br).data()), lens@, old(br).pos());
            let k = n - (final(br).pos() - old(br).pos());
            &&& 0 <= sym < lens@.len()
            &&& 1 <= n <= 15
            &&& 1 <= k <= n
            &&& e == table::entry(res@[sym] as int, k)
        }),
{
    let ghost b = bits::to_bits(old(br).data());
    let ghost p = br.pos();
    let ghost x = bits::le_val(b, p, 15);
    let idx: u64 = br.peek_bits(tb);
    proof {
        lemma2_to64();
        lemma_pow2_pos(tb as nat);
        bits::lemma_le_bound(b, p, 15);
        bits::lemma_rev_le(b, p, 15);
        bits::lemma_be_bound(b, p, 15);
        bits::lemma_le_divmod(b, p, tb as nat, 15);
        codes::lemma_next_sym_range(lens@, bits::be_val(b, p, 15));
        assert(table::reads(tab@, tb as nat, res@, lens@, x, tab@.len() as int));
    }
    let mut e: u32 = tab[idx as usize];
    let ghost (sym, n) = stream::sym_at(b, lens@, p);
    if (e / 16384) % 2 == 1 {
        proof {
            if n <= tb {
                assert(!table::is_pointer(table::entry(res@[sym] as int, n)));
            }
        }
        let sb: u32 = (e / 256) % 64;
        let st: u32 = e / 65536;
        br.consume(tb);
        let idx2: u64 = br.peek_bits(sb);
        proof {
            bits::lemma_le_divmod(b, p + tb, sb as nat, (15 - tb) as nat);
        }
        e = tab[(st as u64 + idx2) as usize];
    } else {
        proof {
            if n > tb {
                assert(table::is_pointer(e as int));
            }
        }
    }
    e
}

/// The value of the extra bits of an entry, read from the bits that were there
/// before the entry was consumed.
#[inline]
fn extra_bits<R: BitInput>(
    br: &mut R,
    e: u32,
    k: Ghost<int>,
    x: Ghost<nat>,
) -> (v: u64)
    requires
        old(br).wf(),
        1 <= k@ <= 15,
        x@ <= 13,
        e % 256 == k@ + x@,
        (e / 256) % 32 == k@,
        k@ + x@ <= old(br).avail(),
    ensures
        final(br).data() == old(br).data(),
        final(br).staged() == old(br).staged(),
        final(br).wf(),
        forall|m: int| #[trigger] final(br).at_hand(m) == old(br).at_hand(m + k@ + x@),
        final(br).pos() == old(br).pos() + k@ + x@,
        final(br).avail() == old(br).avail() - k@ - x@,
        v == bits::le_val(bits::to_bits(old(br).data()), old(br).pos() + k@, x@),
        v < pow2(x@),
{
    let total: u32 = e % 256;
    let len: u32 = (e / 256) % 32;
    br.consume(len);
    take_bits(br, total - len)
}

/// Copy a match within the output: the bytes `offset` places back are repeated,
/// also where source and target overlap.
pub fn fastloop_match_copy(output: &mut [u8], out_pos: usize, offset: usize, length: usize)
    requires
        1 <= offset <= out_pos,
        out_pos + length <= old(output)@.len(),
    ensures
        final(output)@.len() == old(output)@.len(),
        final(output)@.take(out_pos + length) == stream::copy_match(
            old(output)@.take(out_pos as int),
            offset as int,
            length as nat,
        ),
        forall|i: int|
            out_pos + length <= i < old(output)@.len() ==> #[trigger] final(output)@[i] == old(
                output,
            )@[i],
{
    let n: usize = output.len();
    let mut i: usize = 0;
    while i < length
        invariant
            n == output@.len(),
            output@.len() == old(output)@.len(),
            i <= length,
            1 <= offset <= out_pos,
            out_pos + length <= n,
            output@.take(out_pos + i) == stream::copy_match(
                old(output)@.take(out_pos as int),
                offset as int,
                i as nat,
            ),
            forall|j: int|
                out_pos + i <= j < n ==> #[trigger] output@[j] == old(output)@[j],
        decreases length - i,
    {
        let byte: u8 = output[out_pos + i - offset];
        let ghost before = output@;
        output[out_pos + i] = byte;
        proof {
            let o = before.take(out_pos + i);
            assert(o[o.len() - offset] == byte);
            assert(output@.take(out_pos + i + 1) =~= o.push(byte));
        }
        i = i + 1;
    }
}

/// The two decode tables of a block with their codes.
pub open spec fn block_tables(
    ltab: Seq<u32>,
    otab: Seq<u32>,
    lres: Seq<u32>,
    ores: Seq<u32>,
    ll: Seq<u8>,
    ol: Seq<u8>,
) -> bool {
    &&& results::is_litlen_results(lres)
    &&& results::is_offset_results(ores)
    &&& decodes(ltab, LITLEN_TABLEBITS, lres, ll)
    &&& decodes(otab, OFFSET_TABLEBITS, ores, ol)
}

/// A literal, a match or the end of a block.
pub enum Item {
    /// A byte.
    Literal(u8),
    /// The end of the block.
    End,
    /// The bytes `offset` places back, `length` of them.
    Match { length: usize, offset: usize },
}

/// The item is the one at bit position `p`, and `q` is the position after it.
pub open spec fn item_at(
    b: Seq<bool>,
    ll: Seq<u8>,
    ol: Seq<u8>,
    p: int,
    item: Item,
    q: int,
) -> bool {
    let (sym, n) = stream::sym_at(b, ll, p);
    &&& n >= 1
    &&& p < q
    &&& match item {
        Item::Literal(v) => sym < 256 && v == sym as u8 && q == p + n,
        Item::End => sym == 256 && q == p + n,
        Item::Match { length, offset } => {
            &&& sym > 256
            &&& stream::match_at(b, ol, sym, p + n) == (length as int, offset as int, q)
            &&& 3 <= length <= 258
            &&& 1 <= offset <= 32768
        },
    }
}

/// Decode the next item.
///
/// Fails where the position is too far past the end of the data.
pub fn decode_item<R: BitInput>(
    ltab: &[u32],
    otab: &[u32],
    br: &mut R,
    lres: Ghost<Seq<u32>>,
    ores: Ghost<Seq<u32>>,
    ll: Ghost<Seq<u8>>,
    ol: Ghost<Seq<u8>>,
) -> (r: Result<Item, DecompressionError>)
    requires
        block_tables(ltab@, otab@, lres@, ores@, ll@, ol@),
        old(br).wf(),
        old(br).at_hand(0),
    ensures
        final(br).data() == old(br).data(),
        final(br).staged() == old(br).staged(),
        r is Ok <==> old(br).pos() <= 8 * old(br).data().len() + stream::overread(),
        r matches Ok(item) ==> final(br).wf() && item_at(
            bits::to_bits(old(br).data()),
            ll@,
            ol@,
            old(br).pos(),
            item,
            final(br).pos(),
        ),
        r matches Err(e) ==> e is BadData,
{
    let ghost b = bits::to_bits(br.data());
    let ghost p = br.pos();
    match br.refill_bits() {
        Ok(()) => {},
        Err(_) => {
            return Err(DecompressionError::BadData);
        },
    }
    let ghost (sym, n) = stream::sym_at(b, ll@, p);
    let e: u32 = lookup(ltab, LITLEN_TABLEBITS, br, lres, ll);
    let ghost k = n - (br.pos() - p);
    proof {
        results::lemma_litlen_entry(sym, k);
    }
    if e >= 0x8000_0000 {
        br.consume(e % 256);
        return Ok(Item::Literal(((e / 65536) % 256) as u8));
    }
    if (e / 8192) % 2 == 1 {
        br.consume(e % 256);
        return Ok(Item::End);
    }
    let ghost x = stream::length_extra(sym);
    proof {
        results::lemma_length_bounds(sym);
    }
    let ev: u64 = extra_bits(br, e, Ghost(k), Ghost(x));
    proof {
        lemma_small_pow2(x);
    }
    let length: usize = (e / 65536) as usize + ev as usize;
    let ghost p1 = br.pos();
    let ghost (osym, on) = stream::sym_at(b, ol@, p1);
    let oe: u32 = lookup(otab, OFFSET_TABLEBITS, br, ores, ol);
    let ghost ok = on - (br.pos() - p1);
    proof {
        results::lemma_offset_entry(osym, ok);
        results::lemma_offset_bounds(osym);
    }
    let ghost ox = stream::offset_extra(osym);
    let ov: u64 = extra_bits(br, oe, Ghost(ok), Ghost(ox));
    proof {
        lemma_small_pow2(ox);
    }
    let offset: usize = (oe / 65536) as usize + ov as usize;
    Ok(Item::Match { length, offset })
}

/// Decode literals and matches to the end of a block. Returns the length of the
/// output.
pub fn decode_items<R: BitInput>(
    ltab: &[u32],
    otab: &[u32],
    output: &mut [u8],
    br: &mut R,
    out_start: usize,
    lres: Ghost<Seq<u32>>,
    ores: Ghost<Seq<u32>>,
    ll: Ghost<Seq<u8>>,
    ol: Ghost<Seq<u8>>,
) -> (r: Result<usize, DecompressionError>)
    requires
        block_tables(ltab@, otab@, lres@, ores@, ll@, ol@),
        old(br).wf(),
        forall|br: R| #[trigger] br.at_hand(0),
        out_start <= old(output)@.len(),
    ensures
        final(output)@.len() == old(output)@.len(),
        final(br).data() == old(br).data(),
        final(br).staged() == old(br).staged(),
        ({
            let s = stream::items(
                bits::to_bits(old(br).data()),
                ll@,
                ol@,
                old(br).pos(),
                old(output)@.take(out_start as int),
                old(output)@.len() as int,
            );
            match r {
                Ok(n) => {
                    &&& n <= final(output)@.len()
                    &&& final(br).wf()
                    &&& s == (stream::Step::Next {
                        p: final(br).pos(),
                        out: final(output)@.take(n as int),
                    })
                },
                Err(DecompressionError::BadData) => s is Bad,
                Err(DecompressionError::InsufficientSpace) => s is NoSpace,
                Err(_) => false,
            }
        }),
        final(output)@ == stream::over(
            stream::items_seen(
                bits::to_bits(old(br).data()),
                ll@,
                ol@,
                old(br).pos(),
                old(output)@.take(out_start as int),
                old(output)@.len() as int,
            ),
            old(output)@,
        ),
{
    let cap: usize = output.len();
    let mut out_pos: usize = out_start;
    let ghost seen = stream::items_seen(
        bits::to_bits(br.data()),
        ll@,
        ol@,
        br.pos(),
        output@.take(out_start as int),
        cap as int,
    );
    let ghost b = bits::to_bits(br.data());
    let ghost start = stream::items(
        b,
        ll@,
        ol@,
        br.pos(),
        output@.take(out_start as int),
        cap as int,
    );
    loop
        invariant
            block_tables(ltab@, otab@, lres@, ores@, ll@, ol@),
            br.wf(),
            forall|br: R| #[trigger] br.at_hand(0),
            br.data() == old(br).data(),
            br.staged() == old(br).staged(),
            out_pos <= cap,
            cap == output@.len(),
            output@.len() == old(output)@.len(),
            b == bits::to_bits(br.data()),
            forall|j: int| out_pos <= j < cap ==> #[trigger] output@[j] == old(output)@[j],
            seen == stream::items_seen(
                b,
                ll@,
                ol@,
                old(br).pos(),
                old(output)@.take(out_start as int),
                old(output)@.len() as int,
            ),
            seen == stream::items_seen(
                b,
                ll@,
                ol@,
                br.pos(),
                output@.take(out_pos as int),
                cap as int,
            ),
            start == stream::items(
                b,
                ll@,
                ol@,
                old(br).pos(),
                old(output)@.take(out_start as int),
                old(output)@.len() as int,
            ),
            start == stream::items(
                b,
                ll@,
                ol@,
                br.pos(),
                output@.take(out_pos as int),
                cap as int,
            ),
        decreases stream::left(b, br.pos()),
    {
        let ghost out = output@.take(out_pos as int);
        assert(output@ =~= stream::over(out, old(output)@));
        match decode_item(ltab, otab, br, lres, ores, ll, ol) {
            Ok(Item::Literal(byte)) => {
                if out_pos >= cap {
                    return Err(DecompressionError::InsufficientSpace);
                }
                output[out_pos] = byte;
                proof {
                    assert(output@.take(out_pos + 1) =~= out.push(byte));
                }
                out_pos = out_pos + 1;
            },
            Ok(Item::End) => {
                return Ok(out_pos);
            },
            Ok(Item::Match { length, offset }) => {
                if length > cap - out_pos {
                    return Err(DecompressionError::InsufficientSpace);
                }
                if offset > out_pos {
                    return Err(DecompressionError::BadData);
                }
                fastloop_match_copy(output, out_pos, offset, length);
                out_pos = out_pos + length;
            },
            Err(_) => {
                return Err(DecompressionError::BadData);
            },
        }
    }
}

proof fn lemma_small_pow2(n: nat)
    requires
        n <= 13,
    ensures
        pow2(n) <= 8192,
{
    lemma2_to64();
    if n < 13 {
        lemma_pow2_strictly_increases(n, 13);
    }
}

/// Reading codeword lengths never moves back.
pub proof fn lemma_read_lens_advances(
    b: Seq<bool>,
    pre: Seq<u8>,
    p: int,
    acc: Seq<u8>,
    total: int,
)
    ensures
        stream::read_lens(b, pre, p, acc, total) matches Some((q, lens)) ==> q >= p,
    decreases stream::missing(acc.len() as int, total),
{
    if acc.len() < total {
        let (sym, n) = stream::sym_at(b, pre, p);
        let q = p + n;
        bits::lemma_le_bound(b, q, 2);
        bits::lemma_le_bound(b, q, 3);
        bits::lemma_le_bound(b, q, 7);
        if sym < 16 {
            lemma_read_lens_advances(b, pre, q, acc.push(sym as u8), total);
        } else if sym == 16 {
            let r = stream::repeat(acc.last(), 3 + bits::le_val(b, q, 2));
            lemma_read_lens_advances(b, pre, q + 2, acc + r, total);
        } else if sym == 17 {
            let r = stream::repeat(0, 3 + bits::le_val(b, q, 3));
            lemma_read_lens_advances(b, pre, q + 3, acc + r, total);
        } else {
            let r = stream::repeat(0, 11 + bits::le_val(b, q, 7));
            lemma_read_lens_advances(b, pre, q + 7, acc + r, total);
        }
    }
}

/// Append `n` copies of a codeword length.
fn push_repeat(lens: &mut Vec<u8>, v: u8, n: usize)
    requires
        old(lens)@.len() + n <= 1000,
    ensures
        final(lens)@ == old(lens)@ + stream::repeat(v, n as int),
{
    let mut i: usize = 0;
    proof {
        assert(lens@ =~= old(lens)@ + stream::repeat(v, 0));
    }
    while i < n
        invariant
            i <= n,
            old(lens)@.len() + n <= 1000,
            lens@ == old(lens)@ + stream::repeat(v, i as int),
        decreases n - i,
    {
        lens.push(v);
        proof {
            assert(lens@ =~= old(lens)@ + stream::repeat(v, i + 1));
        }
        i = i + 1;
    }
}

/// Read the packed codeword lengths of a dynamic block.
///
/// Fails where the data is bad or where reading goes too far past its end.
pub fn read_code_lens<R: BitInput>(
    ptab: &[u32],
    br: &mut R,
    total: usize,
    pres: Ghost<Seq<u32>>,
    pre: Ghost<Seq<u8>>,
) -> (r: Result<Vec<u8>, DecompressionError>)
    requires
        results::is_precode_results(pres@),
        pre@.len() == 19,
        forall|s: int| 0 <= s < 19 ==> #[trigger] pre@[s] <= 7,
        decodes(ptab@, PRECODE_TABLEBITS, pres@, pre@),
        old(br).wf(),
        old(br).at_hand(7 * total),
        1 <= total <= 320,
    ensures
        final(br).data() == old(br).data(),
        final(br).staged() == old(br).staged(),
        ({
            let b = bits::to_bits(old(br).data());
            let s = stream::read_lens(b, pre@, old(br).pos(), Seq::empty(), total as int);
            match r {
                Ok(v) => {
                    &&& final(br).wf()
                    &&& s == Some((final(br).pos(), v@))
                    &&& v@.len() == total
                    &&& codes::bounded(v@)
                },
                Err(e) => {
                    &&& e is BadData
                    &&& s matches Some((q, lens)) ==> q > b.len() + stream::overread()
                },
            }
        }),
{
    let ghost b = bits::to_bits(old(br).data());
    let ghost s = stream::read_lens(b, pre@, br.pos(), Seq::empty(), total as int);
    let mut lens: Vec<u8> = Vec::new();
    while lens.len() < total
        invariant
            results::is_precode_results(pres@),
            pre@.len() == 19,
            forall|s: int| 0 <= s < 19 ==> #[trigger] pre@[s] <= 7,
            decodes(ptab@, PRECODE_TABLEBITS, pres@, pre@),
            br.wf(),
            br.data() == old(br).data(),
            br.staged() == old(br).staged(),
            br.at_hand(7 * (total - lens@.len())),
            1 <= total <= 320,
            lens@.len() <= total + 138,
            codes::bounded(lens@),
            b == bits::to_bits(old(br).data()),
            s == stream::read_lens(b, pre@, old(br).pos(), Seq::empty(), total as int),
            s == stream::read_lens(b, pre@, br.pos(), lens@, total as int),
        decreases stream::missing(lens@.len() as int, total as int),
    {
        let ghost p = br.pos();
        let ghost r0 = *br;
        let ghost n0 = lens@.len() as int;
        proof {
            lemma_read_lens_advances(b, pre@, p, lens@, total as int);
            br.lemma_at_hand(7 * (total - lens@.len()), 0);
        }
        if br.bits_left() < 22 {
            match br.refill_bits() {
                Ok(()) => {},
                Err(_) => {
                    return Err(DecompressionError::BadData);
                },
            }
        }
        let ghost (sym, n) = stream::sym_at(b, pre@, p);
        let e: u32 = lookup(ptab, PRECODE_TABLEBITS, br, pres, pre);
        proof {
            results::lemma_precode_entry(sym, n - (br.pos() - p));
            assert(n <= 7);
            lemma2_to64();
        }
        br.consume(e % 256);
        let presym: u32 = e / 65536;
        if presym < 16 {
            lens.push(presym as u8);
        } else if presym == 16 {
            if lens.len() == 0 {
                return Err(DecompressionError::BadData);
            }
            let v: u8 = lens[lens.len() - 1];
            let count: usize = 3 + take_bits(br, 2) as usize;
            push_repeat(&mut lens, v, count);
        } else if presym == 17 {
            let count: usize = 3 + take_bits(br, 3) as usize;
            push_repeat(&mut lens, 0, count);
        } else {
            let count: usize = 11 + take_bits(br, 7) as usize;
            push_repeat(&mut lens, 0, count);
        }
        proof {
            let m = 7 * (total - lens@.len());
            r0.lemma_at_hand(7 * (total - n0), m + (br.pos() - p));
            assert(br.at_hand(m) == r0.at_hand(m + (br.pos() - p)));
        }
    }
    if lens.len() != total {
        return Err(DecompressionError::BadData);
    }
    Ok(lens)
}

/// Read the codeword lengths of the precode of a dynamic block; `first` is the
/// first field, which has been read already.
fn read_precode_lens<R: BitInput>(
    br: &mut R,
    first: u8,
    count: usize,
    p: Ghost<int>,
) -> (pre: [u8; 19])
    requires
        old(br).wf(),
        4 <= count <= 19,
        old(br).avail() >= 54,
        old(br).pos() == p@ + 3,
        first == bits::le_val(bits::to_bits(old(br).data()), p@, 3),
        first < 8,
    ensures
        final(br).data() == old(br).data(),
        final(br).staged() == old(br).staged(),
        final(br).wf(),
        forall|m: int| #[trigger] final(br).at_hand(m) == old(br).at_hand(m + 3 * (count - 1)),
        final(br).pos() == p@ + 3 * count,
        pre@ == stream::precode_lens(bits::to_bits(old(br).data()), p@, count as int, 19),
        forall|s: int| 0 <= s < 19 ==> #[trigger] pre@[s] <= 7,
{
    let ghost b = bits::to_bits(old(br).data());
    let mut pre: [u8; 19] = [0u8; 19];
    let ghost zeros = stream::precode_lens(b, p@, count as int, 0);
    proof {
        lemma2_to64();
        assert(pre@ =~= zeros);
    }
    pre[DEFLATE_PRECODE_LENS_PERMUTATION[0] as usize] = first;
    proof {
        assert(stream::precode_lens(b, p@, count as int, 1) == zeros.update(16, first));
    }
    let mut k: usize = 1;
    while k < 19
        invariant
            1 <= k <= 19,
            4 <= count <= 19,
            b == bits::to_bits(old(br).data()),
            br.wf(),
            br.data() == old(br).data(),
            br.staged() == old(br).staged(),
            forall|m: int| #[trigger]
                br.at_hand(m) == old(br).at_hand(m + (br.pos() - p@ - 3)),
            br.pos() == p@ + 3 * if k < count {
                k as int
            } else {
                count as int
            },
            br.avail() >= 54 - 3 * (k - 1),
            pre@ == stream::precode_lens(b, p@, count as int, k as nat),
            forall|s: int| 0 <= s < 19 ==> #[trigger] pre@[s] <= 7,
        decreases 19 - k,
    {
        proof {
            lemma2_to64();
            assert(DEFLATE_PRECODE_LENS_PERMUTATION@[k as int] < 19);
        }
        let v: u8 = if k < count {
            take_bits(br, 3) as u8
        } else {
            0
        };
        pre[DEFLATE_PRECODE_LENS_PERMUTATION[k] as usize] = v;
        k = k + 1;
    }
    pre
}

/// Read the header of a dynamic block, just past the block's type, and build
/// the block's decode tables. Returns the codeword lengths of both codes.
pub fn parse_dynamic_header<R: BitInput>(
    br: &mut R,
    ptab: &mut [u32],
    ltab: &mut [u32],
    otab: &mut [u32],
    pres: &[u32],
    lres: &[u32],
    ores: &[u32],
) -> (r: Result<(Vec<u8>, usize), DecompressionError>)
    requires
        results::is_precode_results(pres@),
        results::is_litlen_results(lres@),
        results::is_offset_results(ores@),
        old(ptab)@.len() == 128,
        old(ltab)@.len() == 4352,
        old(otab)@.len() == 2304,
        old(br).wf(),
        old(br).avail() >= 53,
        old(br).at_hand(2400),
    ensures
        final(br).data() == old(br).data(),
        final(br).staged() == old(br).staged(),
        final(ptab)@.len() == old(ptab)@.len(),
        final(ltab)@.len() == old(ltab)@.len(),
        final(otab)@.len() == old(otab)@.len(),
        ({
            let b = bits::to_bits(old(br).data());
            let h = stream::dynamic_header(b, old(br).pos());
            match r {
                Ok((lens, nl)) => {
                    &&& nl <= lens@.len()
                    &&& final(br).wf()
                    &&& h == Some((final(br).pos(), lens@.take(nl as int), lens@.skip(nl as int)))
                    &&& block_tables(
                        final(ltab)@,
                        final(otab)@,
                        lres@,
                        ores@,
                        lens@.take(nl as int),
                        lens@.skip(nl as int),
                    )
                },
                Err(e) => {
                    &&& e is BadData
                    &&& h matches Some((q, ll, ol)) ==> q > b.len() + stream::overread()
                },
            }
        }),
{
    let ghost b = bits::to_bits(old(br).data());
    let ghost p = br.pos();
    proof {
        lemma2_to64();
        results::lemma_results_ok(pres@);
        results::lemma_results_ok(lres@);
        results::lemma_results_ok(ores@);
    }
    let nl: usize = 257 + take_bits(br, 5) as usize;
    let no: usize = 1 + take_bits(br, 5) as usize;
    let np: usize = 4 + take_bits(br, 4) as usize;
    let first: u8 = take_bits(br, 3) as u8;
    let ghost r0 = *old(br);
    proof {
        r0.lemma_at_hand(2400, 17);
        assert(br.at_hand(0) == r0.at_hand(17));
    }
    let ghost pre_s = stream::precode_lens(b, p + 14, np as int, 19);
    proof {
        lemma_read_lens_advances(
            b,
            pre_s,
            p + 14 + 3 * np,
            Seq::empty(),
            nl + no,
        );
    }
    match br.refill_bits() {
        Ok(()) => {},
        Err(_) => {
            return Err(DecompressionError::BadData);
        },
    }
    let pre: [u8; 19] = read_precode_lens(br, first, np, Ghost(p + 14));
    proof {
        let m = 7 * (nl + no);
        r0.lemma_at_hand(2400, m + 14 + 3 * np);
        assert(br.at_hand(m) == r0.at_hand(m + 14 + 3 * np));
    }
    if !build_decode_table(ptab, &pre, pres, PRECODE_TABLEBITS, 7) {
        return Err(DecompressionError::BadData);
    }
    let lens: Vec<u8> = match read_code_lens(
        ptab,
        br,
        nl + no,
        Ghost(pres@),
        Ghost(pre@),
    ) {
        Ok(v) => v,
        Err(_) => {
            return Err(DecompressionError::BadData);
        },
    };
    let ll: &[u8] = vstd::slice::slice_subrange(lens.as_slice(), 0, nl);
    let ol: &[u8] = vstd::slice::slice_subrange(lens.as_slice(), nl, nl + no);
    proof {
        assert(ll@ =~= lens@.take(nl as int));
        assert(ol@ =~= lens@.skip(nl as int));
        assert(codes::bounded(ll@));
        assert(codes::bounded(ol@));
        lemma_table_sizes(ll@.len() as int, ol@.len() as int);
    }
    if !build_decode_table(otab, ol, ores, OFFSET_TABLEBITS, 15) {
        return Err(DecompressionError::BadData);
    }
    if !build_decode_table(ltab, ll, lres, LITLEN_TABLEBITS, 15) {
        return Err(DecompressionError::BadData);
    }
    Ok((lens, nl))
}

/// The literal/length and offset tables are large enough for any code.
pub proof fn lemma_table_sizes(nl: int, no: int)
    requires
        0 <= nl <= 288,
        0 <= no <= 32,
    ensures
        table::table_fits(4352, LITLEN_TABLEBITS as nat, nl, 15),
        table::table_fits(2304, OFFSET_TABLEBITS as nat, no, 15),
{
    lemma2_to64();
    let a = pow2((15 - LITLEN_TABLEBITS) as nat) as int;
    let c = pow2((15 - OFFSET_TABLEBITS) as nat) as int;
    assert(nl * a <= 4608) by (nonlinear_arith)
        requires
            a == 16,
            nl <= 288,
    ;
    assert(no * c <= 4096) by (nonlinear_arith)
        requires
            c == 128,
            no <= 32,
    ;
}

} // verus!
