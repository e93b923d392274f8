//! DEFLATE, zlib and gzip decompression.

pub mod cut;
pub mod decode;
pub mod laws;
pub mod parity;
pub mod phases;
pub mod reader;
pub mod results;
pub mod source;
pub mod staging;
pub mod streaming;
pub mod table;
pub mod window;

use crate::bits;
use crate::checksum;
use crate::container;
use crate::decompress::decode::{
    decode_items, parse_dynamic_header, LITLEN_TABLEBITS, OFFSET_TABLEBITS,
};
use crate::decompress::reader::{take_bits, BitInput, BitReader};
use crate::decompress::results::{
    gen_litlen_decode_results, gen_offset_decode_results, gen_precode_decode_results,
};
use crate::decompress::table::build_decode_table;
use crate::error::DecompressionError;
use crate::fast_bytes;
use crate::fast_bytes::{load_u16_le, load_u32_le};
use crate::stop::Stop;
use crate::stream;
use vstd::arithmetic::power2::*;
use vstd::prelude::*;

verus! {

/// Result of a successful decompression.
#[derive(Debug, Clone, Copy, PartialEq, Eq)]
pub struct DecompressOutcome {
    /// How many bytes of the input slice were consumed.
    pub input_consumed: usize,
    /// How many decompressed bytes were written to the output buffer.
    pub output_written: usize,
}

/// How a block holds its data.
pub enum BlockKind {
    /// As it is.
    Stored,
    /// As literals and matches, by the codes with these codeword lengths.
    Coded { ll: Ghost<Seq<u8>>, ol: Ghost<Seq<u8>> },
}

/// DEFLATE/zlib/gzip decompressor.
///
/// Reusable across multiple decompression calls. Keeps the decode tables of the
/// static codes between calls.
pub struct Decompressor {
    pub(crate) precode_decode_table: [u32; 128],
    pub(crate) litlen_decode_table: [u32; 4352],
    pub(crate) offset_decode_table: [u32; 2304],
    pub(crate) precode_results: [u32; 19],
    pub(crate) litlen_results: [u32; 288],
    pub(crate) offset_results: [u32; 32],
    pub(crate) static_codes_loaded: bool,
}

impl Decompressor {
    /// The tables marked as those of the static codes are those.
    pub closed spec fn wf(&self) -> bool {
        &&& results::is_precode_results(self.precode_results@)
        &&& results::is_litlen_results(self.litlen_results@)
        &&& results::is_offset_results(self.offset_results@)
        &&& self.static_codes_loaded ==> decode::block_tables(
            self.litlen_decode_table@,
            self.offset_decode_table@,
            self.litlen_results@,
            self.offset_results@,
            stream::static_litlen_lens(),
            stream::static_offset_lens(),
        )
    }

    /// Create a new decompressor.
    pub fn new() -> (d: Self)
        ensures
            d.wf(),
    {
        Decompressor {
            precode_decode_table: [0u32; 128],
            litlen_decode_table: [0u32; 4352],
            offset_decode_table: [0u32; 2304],
            precode_results: gen_precode_decode_results(),
            litlen_results: gen_litlen_decode_results(),
            offset_results: gen_offset_decode_results(),
            static_codes_loaded: false,
        }
    }

    /// Build the decode tables of the static codes unless they are there.
    fn load_static_codes(&mut self)
        requires
            old(self).wf(),
        ensures
            final(self).wf(),
            final(self).static_codes_loaded,
    {
        if self.static_codes_loaded {
            return;
        }
        let mut ll: [u8; 288] = [8u8; 288];
        let mut i: usize = 144;
        while i < 280
            invariant
                144 <= i <= 280,
                forall|s: int|
                    0 <= s < 288 ==> #[trigger] ll@[s] == if s < 144 || s >= i {
                        8u8
                    } else if s < 256 {
                        9
                    } else {
                        7
                    },
            decreases 280 - i,
        {
            ll[i] = if i < 256 {
                9
            } else {
                7
            };
            i = i + 1;
        }
        let ol: [u8; 32] = [5u8; 32];
        proof {
            assert(ll@ =~= stream::static_litlen_lens());
            assert(ol@ =~= stream::static_offset_lens());
            stream::lemma_static_codes();
            results::lemma_results_ok(self.litlen_results@);
            results::lemma_results_ok(self.offset_results@);
            decode::lemma_table_sizes(288, 32);
            lemma2_to64();
        }
        let a: bool = build_decode_table(
            &mut self.offset_decode_table,
            &ol,
            &self.offset_results,
            OFFSET_TABLEBITS,
            15,
        );
        let c: bool = build_decode_table(
            &mut self.litlen_decode_table,
            &ll,
            &self.litlen_results,
            LITLEN_TABLEBITS,
            15,
        );
        self.static_codes_loaded = true;
    }

    /// Decode an uncompressed block, just past its type. Returns the length of
    /// the output.
    fn stored_block(
        output: &mut [u8],
        br: &mut BitReader<'_>,
        out_pos: usize,
    ) -> (r: Result<usize, DecompressionError>)
        requires
            old(br).wf(),
            out_pos <= old(output)@.len(),
        ensures
            final(output)@.len() == old(output)@.len(),
            final(br).data() == old(br).data(),
            ({
                let s = stream::stored(
                    bits::to_bits(old(br).data()),
                    old(br).pos(),
                    old(output)@.take(out_pos as int),
                    old(output)@.len() as int,
                );
                match r {
                    Ok(n) => {
                        &&& n <= final(output)@.len()
                        &&& final(br).wf()
                        &&& s == (stream::Step::Next {
                            p: final(br).pos(),
                            out: final(output)@.take(n as int),
                        })
                    },
                    Err(DecompressionError::BadData) => s is Bad,
                    Err(DecompressionError::InsufficientSpace) => s is NoSpace,
                    Err(_) => false,
                }
            }),
            r matches Ok(n) ==> final(output)@ == stream::over(
                final(output)@.take(n as int),
                old(output)@,
            ),
            r is Err ==> final(output)@ == old(output)@,
    {
        let input: &[u8] = br.input;
        let n: usize = input.len();
        let cap: usize = output.len();
        let ghost b = bits::to_bits(input@);
        // Give back the whole bytes that are still in the buffer.
        let unread: usize = (br.bitsleft / 8) as usize;
        if br.overread_count > unread {
            return Err(DecompressionError::BadData);
        }
        let q: usize = br.in_pos - (unread - br.overread_count);
        proof {
            assert(stream::align8(br.pos()) == 8 * q);
        }
        if q > n || n - q < 4 {
            return Err(DecompressionError::BadData);
        }
        proof {
            fast_bytes::lemma_load16_bits(input@, q as int);
            fast_bytes::lemma_load16_bits(input@, q + 2);
        }
        let len: usize = load_u16_le(input, q) as usize;
        let nlen: usize = load_u16_le(input, q + 2) as usize;
        let d: usize = q + 4;
        if len + nlen != 65535 {
            return Err(DecompressionError::BadData);
        }
        if len > cap - out_pos {
            return Err(DecompressionError::InsufficientSpace);
        }
        if len > n - d {
            return Err(DecompressionError::BadData);
        }
        let ghost out = output@.take(out_pos as int);
        let mut i: usize = 0;
        proof {
            assert(output@.take(out_pos as int) =~= out + stream::bytes_at(b, 8 * d as int, 0));
        }
        while i < len
            invariant
                i <= len,
                n == input@.len(),
                cap == output@.len(),
                output@.len() == old(output)@.len(),
                d + len <= n,
                out_pos + len <= cap,
                b == bits::to_bits(input@),
                output@.take(out_pos + i) == out + stream::bytes_at(b, 8 * d as int, i as int),
                forall|j: int| out_pos + i <= j < cap ==> #[trigger] output@[j] == old(output)@[j],
            decreases len - i,
        {
            let ghost before = output@;
            output[out_pos + i] = input[d + i];
            proof {
                bits::lemma_to_bits_byte(input@, d + i);
                assert(8 * d + 8 * i == 8 * (d + i));
                assert(output@.take(out_pos + i + 1) =~= before.take(out_pos + i).push(
                    input@[d + i],
                ));
                assert(stream::bytes_at(b, 8 * d as int, i + 1) =~= stream::bytes_at(
                    b,
                    8 * d as int,
                    i as int,
                ).push(input@[d + i]));
                assert((out + stream::bytes_at(b, 8 * d as int, i as int)).push(input@[d + i])
                    =~= out + stream::bytes_at(b, 8 * d as int, i + 1));
            }
            i = i + 1;
        }
        br.in_pos = d + len;
        br.overread_count = 0;
        br.bitbuf = 0;
        br.bitsleft = 0;
        proof {
            let m = out_pos + len;
            assert(output@ =~= stream::over(output@.take(m), old(output)@));
        }
        Ok(out_pos + len)
    }

    /// Read the header of a block: whether it is the last one, and, unless it is
    /// stored, its codes, whose decode tables are built.
    ///
    /// Fails where the data is bad or where reading goes too far past its end.
    pub(crate) fn start_block<R: BitInput>(&mut self, br: &mut R) -> (r: Result<
        (bool, BlockKind),
        DecompressionError,
    >)
        requires
            old(self).wf(),
            old(br).wf(),
            old(br).at_hand(2403),
        ensures
            final(self).wf(),
            final(br).data() == old(br).data(),
            final(br).staged() == old(br).staged(),
            ({
                let b = bits::to_bits(old(br).data());
                let p = old(br).pos();
                match r {
                    Ok((last, kind)) => {
                        &&& p <= b.len() + stream::overread()
                        &&& final(br).wf()
                        &&& p < final(br).pos()
                        &&& last == stream::is_last(b, p)
                        &&& match kind {
                            BlockKind::Stored => {
                                &&& bits::le_val(b, p + 1, 2) == 0
                                &&& final(br).pos() == p + 3
                                &&& final(br).avail() >= 53
                            },
                            BlockKind::Coded { ll, ol } => {
                                &&& stream::block_codes(b, p) == Some((final(br).pos(), ll@, ol@))
                                &&& decode::block_tables(
                                    final(self).litlen_decode_table@,
                                    final(self).offset_decode_table@,
                                    final(self).litlen_results@,
                                    final(self).offset_results@,
                                    ll@,
                                    ol@,
                                )
                            },
                        }
                    },
                    Err(e) => {
                        &&& e is BadData
                        &&& p > b.len() + stream::overread() || (bits::le_val(b, p + 1, 2) != 0 && (
                        stream::block_codes(b, p) matches Some((q, ll, ol)) ==> q > b.len()
                            + stream::overread()))
                    },
                }
            }),
    {
        let ghost b = bits::to_bits(br.data());
        let ghost p = br.pos();
        proof {
            br.lemma_at_hand(2403, 0);
        }
        match br.refill_bits() {
            Ok(()) => {},
            Err(_) => {
                return Err(DecompressionError::BadData);
            },
        }
        proof {
            lemma2_to64();
            assert(bits::le_val(b, p, 1) == bits::bit(b, p)) by {
                reveal_with_fuel(bits::le_val, 2);
            }
        }
        let last: bool = take_bits(br, 1) == 1;
        let kind: u64 = take_bits(br, 2);
        if kind == 0 {
            return Ok((last, BlockKind::Stored));
        }
        if kind == 1 {
            self.load_static_codes();
            return Ok(
                (
                    last,
                    BlockKind::Coded {
                        ll: Ghost(stream::static_litlen_lens()),
                        ol: Ghost(stream::static_offset_lens()),
                    },
                ),
            );
        }
        if kind != 2 {
            return Err(DecompressionError::BadData);
        }
        self.static_codes_loaded = false;
        proof {
            lemma_header_advances(b, p + 3);
        }
        match parse_dynamic_header(
            br,
            &mut self.precode_decode_table,
            &mut self.litlen_decode_table,
            &mut self.offset_decode_table,
            &self.precode_results,
            &self.litlen_results,
            &self.offset_results,
        ) {
            Ok(c) => Ok(
                (
                    last,
                    BlockKind::Coded {
                        ll: Ghost(c.0@.take(c.1 as int)),
                        ol: Ghost(c.0@.skip(c.1 as int)),
                    },
                ),
            ),
            Err(_) => Err(DecompressionError::BadData),
        }
    }

    /// Decode one block. Returns the length of the output and whether the block
    /// is the last one.
    fn decompress_block(
        &mut self,
        output: &mut [u8],
        br: &mut BitReader<'_>,
        out_pos: usize,
        stop: &impl Stop,
    ) -> (r: Result<(usize, bool), DecompressionError>)
        requires
            old(self).wf(),
            old(br).wf(),
            out_pos <= old(output)@.len(),
        ensures
            final(self).wf(),
            final(output)@.len() == old(output)@.len(),
            final(br).data() == old(br).data(),
            ({
                let b = bits::to_bits(old(br).data());
                let p = old(br).pos();
                let past = p > b.len() + stream::overread();
                let s = stream::block(
                    b,
                    p,
                    old(output)@.take(out_pos as int),
                    old(output)@.len() as int,
                );
                match r {
                    Ok((n, last)) => {
                        &&& !past
                        &&& n <= final(output)@.len()
                        &&& final(br).wf()
                        &&& last == stream::is_last(b, p)
                        &&& s == (stream::Step::Next {
                            p: final(br).pos(),
                            out: final(output)@.take(n as int),
                        })
                    },
                    Err(DecompressionError::BadData) => past || s is Bad,
                    Err(DecompressionError::InsufficientSpace) => !past && s is NoSpace,
                    Err(DecompressionError::Stopped(_)) => !stop.never_stops(),
                    Err(_) => false,
                }
            }),
            ({
                let b = bits::to_bits(old(br).data());
                let p = old(br).pos();
                let out = old(output)@.take(out_pos as int);
                final(output)@ == if r matches Err(DecompressionError::Stopped(_)) || p > b.len()
                    + stream::overread() {
                    old(output)@
                } else {
                    stream::over(
                        stream::block_seen(b, p, out, old(output)@.len() as int),
                        old(output)@,
                    )
                }
            }),
    {
        assert(output@ =~= stream::over(output@.take(out_pos as int), output@));
        match self.start_block(br) {
            Ok((last, BlockKind::Stored)) => match Self::stored_block(output, br, out_pos) {
                Ok(n) => Ok((n, last)),
                Err(e) => Err(e),
            },
            Ok((last, BlockKind::Coded { ll, ol })) => {
                match stop.check() {
                    Ok(()) => {},
                    Err(reason) => {
                        return Err(DecompressionError::Stopped(reason));
                    },
                }
                match decode_items(
                    &self.litlen_decode_table,
                    &self.offset_decode_table,
                    output,
                    br,
                    out_pos,
                    Ghost(self.litlen_results@),
                    Ghost(self.offset_results@),
                    ll,
                    ol,
                ) {
                    Ok(n) => Ok((n, last)),
                    Err(e) => Err(e),
                }
            },
            Err(_) => Err(DecompressionError::BadData),
        }
    }

    /// Decompress a raw DEFLATE stream. Returns the number of bytes consumed and
    /// the number of bytes written.
    #[verifier::spinoff_prover]
    #[verifier::rlimit(100)]
    fn deflate_decompress_core(
        &mut self,
        input: &[u8],
        output: &mut [u8],
        stop: &impl Stop,
    ) -> (r: Result<(usize, usize), DecompressionError>)
        requires
            old(self).wf(),
        ensures
            final(self).wf(),
            final(output)@.len() == old(output)@.len(),
            match r {
                Ok((consumed, written)) => {
                    &&& consumed <= input@.len()
                    &&& written <= final(output)@.len()
                    &&& stream::inflate_bytes(input@, old(output)@.len() as int) matches stream::Step::Next {
                        p,
                        out,
                    }
                    &&& consumed == stream::bytes_for(p)
                    &&& final(output)@.take(written as int) == out
                },
                Err(DecompressionError::BadData) => stream::inflate_bytes(
                    input@,
                    old(output)@.len() as int,
                ) is Bad,
                Err(DecompressionError::InsufficientSpace) => stream::inflate_bytes(
                    input@,
                    old(output)@.len() as int,
                ) is NoSpace,
                Err(DecompressionError::Stopped(_)) => !stop.never_stops(),
                Err(_) => false,
            },
            !(r matches Err(DecompressionError::Stopped(_))) ==> final(output)@
                == stream::decoded_into(input@, old(output)@),
    {
        let ghost seen = stream::inflate_seen(
            bits::to_bits(input@),
            0,
            Seq::empty(),
            output@.len() as int,
        );
        let ghost b = bits::to_bits(input@);
        let ghost s = stream::inflate_bytes(input@, output@.len() as int);
        let mut br: BitReader<'_> = BitReader::new(input);
        let mut out_pos: usize = 0;
        proof {
            assert(output@.take(0) =~= Seq::empty());
            assert(output@ =~= stream::over(output@.take(0), output@));
        }
        loop
            invariant
                self.wf(),
                output@.len() == old(output)@.len(),
                br.wf(),
                br.data() == input@,
                out_pos <= output@.len(),
                b == bits::to_bits(input@),
                output@ == stream::over(output@.take(out_pos as int), old(output)@),
                seen == stream::inflate_seen(b, 0, Seq::empty(), old(output)@.len() as int),
                seen == stream::inflate_seen(
                    b,
                    br.pos(),
                    output@.take(out_pos as int),
                    output@.len() as int,
                ),
                s == stream::inflate_bytes(input@, old(output)@.len() as int),
                s == stream::inflate(
                    b,
                    br.pos(),
                    output@.take(out_pos as int),
                    output@.len() as int,
                ),
            decreases stream::left(b, br.pos()),
        {
            match stop.check() {
                Ok(()) => {},
                Err(reason) => {
                    return Err(DecompressionError::Stopped(reason));
                },
            }
            let ghost p = br.pos();
            let ghost out = output@.take(out_pos as int);
            let r = self.decompress_block(output, &mut br, out_pos, stop);
            proof {
                let e = stream::block_seen(b, p, out, output@.len() as int);
                lemma_block_seen(b, p, out, output@.len() as int);
                lemma_over(out, e, old(output)@);
            }
            match r {
                Ok((n, last)) => {
                    out_pos = n;
                    if last {
                        // Every bit that was needed must have been there.
                        let unread: usize = (br.bitsleft / 8) as usize;
                        if br.overread_count > unread {
                            return Err(DecompressionError::BadData);
                        }
                        let consumed: usize = br.in_pos - (unread - br.overread_count);
                        return Ok((consumed, out_pos));
                    }
                    proof {
                        lemma_block_advances(b, p, out, output@.len() as int);
                    }
                },
                Err(e) => {
                    return Err(e);
                },
            }
        }
    }
}

/// More bytes in place of the first ones.
proof fn lemma_over(d: Seq<u8>, e: Seq<u8>, s: Seq<u8>)
    requires
        d.len() <= e.len() <= s.len(),
    ensures
        stream::over(e, stream::over(d, s)) == stream::over(e, s),
        stream::over(e, s).take(e.len() as int) == e,
{
    assert(stream::over(e, stream::over(d, s)) =~= stream::over(e, s));
    assert(stream::over(e, s).take(e.len() as int) =~= e);
}

/// Decoding items adds to the output, within its capacity; where they come to an end, what
/// was seen is the output.
proof fn lemma_items_seen(
    b: Seq<bool>,
    ll: Seq<u8>,
    ol: Seq<u8>,
    p: int,
    out: Seq<u8>,
    cap: int,
)
    requires
        out.len() <= cap,
    ensures
        out.len() <= stream::items_seen(b, ll, ol, p, out, cap).len() <= cap,
        stream::items(b, ll, ol, p, out, cap) matches stream::Step::Next { p: q, out: o } ==> o
            == stream::items_seen(b, ll, ol, p, out, cap),
    decreases stream::left(b, p),
{
    let (sym, n) = stream::sym_at(b, ll, p);
    let (len, dist, q) = stream::match_at(b, ol, sym, p + n);
    if p > b.len() + stream::overread() || n < 1 || sym == 256 {
    } else if sym < 256 {
        if out.len() < cap {
            lemma_items_seen(b, ll, ol, p + n, out.push(sym as u8), cap);
        }
    } else if len > cap - out.len() || dist > out.len() || q <= p {
    } else {
        phases::lemma_copy_len(out, dist, len as nat);
        bits::lemma_le_bound(b, p + n, stream::length_extra(sym));
        lemma_items_seen(b, ll, ol, q, stream::copy_match(out, dist, len as nat), cap);
    }
}

/// Decoding a block adds to the output, within its capacity; where it comes to an end, what
/// was seen is the output.
proof fn lemma_block_seen(b: Seq<bool>, p: int, out: Seq<u8>, cap: int)
    requires
        out.len() <= cap,
    ensures
        out.len() <= stream::block_seen(b, p, out, cap).len() <= cap,
        stream::block(b, p, out, cap) matches stream::Step::Next { p: q, out: o } ==> o
            == stream::block_seen(b, p, out, cap),
{
    if bits::le_val(b, p + 1, 2) != 0 {
        if let Some((q, ll, ol)) = stream::block_codes(b, p) {
            lemma_items_seen(b, ll, ol, q, out, cap);
        }
    } else {
        bits::lemma_le_bound(b, stream::align8(p + 3), 16);
    }
}

impl Default for Decompressor {
    fn default() -> (d: Self)
        ensures
            d.wf(),
    {
        Self::new()
    }
}

/// The result of a decompression call agrees with what the stream means.
pub open spec fn agrees(
    r: Result<DecompressOutcome, DecompressionError>,
    u: container::Unwrapped,
    output: Seq<u8>,
    never_stops: bool,
) -> bool {
    match r {
        Ok(o) => {
            &&& u matches container::Unwrapped::Done { consumed, out }
            &&& o.input_consumed == consumed
            &&& o.output_written <= output.len()
            &&& output.take(o.output_written as int) == out
        },
        Err(DecompressionError::BadData) => u is BadData,
        Err(DecompressionError::InsufficientSpace) => u is NoSpace,
        Err(DecompressionError::InvalidHeader) => u is BadHeader,
        Err(DecompressionError::ChecksumMismatch) => u is BadFooter,
        Err(DecompressionError::OutputLimitExceeded) => false,
        Err(DecompressionError::Stopped(_)) => !never_stops,
    }
}

impl Decompressor {
    /// Decompress raw DEFLATE data.
    ///
    /// DEFLATE is self-terminating, so the input slice may extend past the
    /// compressed data. Use [`DecompressOutcome::input_consumed`] to find
    /// where the stream ended.
    ///
    /// The `stop` parameter enables cooperative cancellation, checked at each
    /// block boundary. Pass [`Unstoppable`](crate::Unstoppable) when
    /// cancellation is not needed.
    pub fn deflate_decompress(
        &mut self,
        input: &[u8],
        output: &mut [u8],
        stop: impl Stop,
    ) -> (r: Result<DecompressOutcome, DecompressionError>)
        requires
            old(self).wf(),
        ensures
            final(self).wf(),
            final(output)@.len() == old(output)@.len(),
            agrees(
                r,
                container::deflate(input@, old(output)@.len() as int),
                final(output)@,
                stop.never_stops(),
            ),
            !(r matches Err(DecompressionError::Stopped(_))) ==> final(output)@
                == stream::decoded_into(input@, old(output)@),
    {
        match self.deflate_decompress_core(input, output, &stop) {
            Ok((input_consumed, output_written)) => Ok(
                DecompressOutcome { input_consumed, output_written },
            ),
            Err(e) => Err(e),
        }
    }

    /// Decompress zlib-wrapped data.
    ///
    /// See [`deflate_decompress`](Self::deflate_decompress) for the `stop`
    /// parameter.
    pub fn zlib_decompress(
        &mut self,
        input: &[u8],
        output: &mut [u8],
        stop: impl Stop,
    ) -> (r: Result<DecompressOutcome, DecompressionError>)
        requires
            old(self).wf(),
        ensures
            final(self).wf(),
            final(output)@.len() == old(output)@.len(),
            agrees(
                r,
                container::zlib(input@, old(output)@.len() as int),
                final(output)@,
                stop.never_stops(),
            ),
            !(r matches Err(DecompressionError::Stopped(_))) ==> final(output)@ == if r matches Err(
                DecompressionError::InvalidHeader,
            ) {
                old(output)@
            } else {
                stream::decoded_into(input@.subrange(2, input@.len() - 4), old(output)@)
            },
    {
        let n: usize = input.len();
        if n < 6 {
            return Err(DecompressionError::InvalidHeader);
        }
        let cmf: u32 = input[0] as u32;
        let flg: u32 = input[1] as u32;
        if (256 * cmf + flg) % 31 != 0 {
            return Err(DecompressionError::InvalidHeader);
        }
        if cmf % 16 != 8 {
            return Err(DecompressionError::InvalidHeader);
        }
        if cmf / 16 > 7 {
            return Err(DecompressionError::InvalidHeader);
        }
        // Preset dictionaries are not supported.
        if (flg / 32) % 2 != 0 {
            return Err(DecompressionError::InvalidHeader);
        }
        let data: &[u8] = vstd::slice::slice_subrange(input, 2, n - 4);
        let core: (usize, usize) = match self.deflate_decompress_core(data, output, &stop) {
            Ok(c) => c,
            Err(e) => {
                return Err(e);
            },
        };
        let footer: usize = 2 + core.0;
        let expected: u32 = load_u32_be(input, footer);
        let actual: u32 = checksum::adler32::adler32(
            1,
            vstd::slice::slice_subrange(output, 0, core.1),
        );
        proof {
            assert(output@.subrange(0, core.1 as int) =~= output@.take(core.1 as int));
        }
        if actual != expected {
            return Err(DecompressionError::ChecksumMismatch);
        }
        Ok(DecompressOutcome { input_consumed: footer + 4, output_written: core.1 })
    }

    /// Decompress gzip-wrapped data.
    ///
    /// See [`deflate_decompress`](Self::deflate_decompress) for the `stop`
    /// parameter.
    pub fn gzip_decompress(
        &mut self,
        input: &[u8],
        output: &mut [u8],
        stop: impl Stop,
    ) -> (r: Result<DecompressOutcome, DecompressionError>)
        requires
            old(self).wf(),
        ensures
            final(self).wf(),
            final(output)@.len() == old(output)@.len(),
            agrees(
                r,
                container::gzip(input@, old(output)@.len() as int),
                final(output)@,
                stop.never_stops(),
            ),
            !(r matches Err(DecompressionError::Stopped(_))) ==> final(output)@ == if r matches Err(
                DecompressionError::InvalidHeader,
            ) {
                old(output)@
            } else {
                stream::decoded_into(
                    input@.subrange(container::gzip_header(input@)->0, input@.len() - 8),
                    old(output)@,
                )
            },
    {
        let n: usize = input.len();
        proof {
            container::lemma_gzip_header(input@);
        }
        let pos: usize = match gzip_header_len(input) {
            Some(pos) => pos,
            None => {
                return Err(DecompressionError::InvalidHeader);
            },
        };
        let data: &[u8] = vstd::slice::slice_subrange(input, pos, n - 8);
        let core: (usize, usize) = match self.deflate_decompress_core(data, output, &stop) {
            Ok(c) => c,
            Err(e) => {
                return Err(e);
            },
        };
        let footer: usize = pos + core.0;
        proof {
            assert(output@.subrange(0, core.1 as int) =~= output@.take(core.1 as int));
        }
        let crc: u32 = checksum::crc32::crc32(
            0,
            vstd::slice::slice_subrange(output, 0, core.1),
        );
        if crc != load_u32_le(input, footer) {
            return Err(DecompressionError::ChecksumMismatch);
        }
        if (core.1 as u64 % 0x1_0000_0000) as u32 != load_u32_le(input, footer + 4) {
            return Err(DecompressionError::ChecksumMismatch);
        }
        Ok(DecompressOutcome { input_consumed: footer + 8, output_written: core.1 })
    }
}

/// Load four bytes as a number, most significant first.
#[inline]
fn load_u32_be(data: &[u8], pos: usize) -> (r: u32)
    requires
        pos + 4 <= data@.len(),
    ensures
        r == container::be32(data@, pos as int),
{
    let n: usize = data.len();
    16777216 * (data[pos] as u32) + 65536 * (data[pos + 1] as u32) + 256 * (data[pos + 2] as u32)
        + data[pos + 3] as u32
}

/// The position after a zero-terminated string in a gzip header.
fn skip_gzip_string(input: &[u8], from: usize) -> (r: Option<usize>)
    requires
        from <= input@.len(),
    ensures
        r matches Some(p) ==> container::skip_string(input@, from as int) == Some(p as int),
        r is None ==> container::skip_string(input@, from as int) is None,
{
    let n: usize = input.len();
    let mut pos: usize = from;
    while pos < n && input[pos] != 0
        invariant
            from <= pos <= n == input@.len(),
            container::zero_from(input@, from as int) == container::zero_from(input@, pos as int),
        decreases n - pos,
    {
        pos = pos + 1;
    }
    if pos >= n || n - pos < 9 {
        return None;
    }
    Some(pos + 1)
}

/// The length of a valid gzip header.
fn gzip_header_len(input: &[u8]) -> (r: Option<usize>)
    ensures
        r matches Some(p) ==> container::gzip_header(input@) == Some(p as int),
        r is None ==> container::gzip_header(input@) is None,
{
    let n: usize = input.len();
    if n < 18 {
        return None;
    }
    if input[0] != 0x1F || input[1] != 0x8B {
        return None;
    }
    if input[2] != 8 {
        return None;
    }
    let flg: u8 = input[3];
    if flg >= 32 {
        return None;
    }
    let mut pos: usize = 10;
    if (flg / 4) % 2 == 1 {
        let xlen: usize = load_u16_le(input, pos) as usize;
        pos = 12;
        if n - pos < xlen + 8 {
            return None;
        }
        pos = pos + xlen;
    }
    proof {
        assert(container::gzip_extra(input@, 10) == Some(pos as int));
        container::lemma_zero_from(input@, pos as int);
    }
    let ghost a = pos as int;
    if (flg / 8) % 2 == 1 {
        match skip_gzip_string(input, pos) {
            Some(p) => {
                pos = p;
            },
            None => {
                return None;
            },
        }
    }
    proof {
        assert(container::gzip_name(input@, a) == Some(pos as int));
        container::lemma_zero_from(input@, pos as int);
    }
    let ghost b = pos as int;
    if (flg / 16) % 2 == 1 {
        match skip_gzip_string(input, pos) {
            Some(p) => {
                pos = p;
            },
            None => {
                return None;
            },
        }
    }
    proof {
        assert(container::gzip_comment(input@, b) == Some(pos as int));
    }
    if (flg / 2) % 2 == 1 {
        if n - pos < 10 {
            return None;
        }
        pos = pos + 2;
    }
    Some(pos)
}

/// Decoding items moves past at least the end-of-block symbol.
pub proof fn lemma_items_advance(
    b: Seq<bool>,
    ll: Seq<u8>,
    ol: Seq<u8>,
    p: int,
    out: Seq<u8>,
    cap: int,
)
    ensures
        stream::items(b, ll, ol, p, out, cap) matches stream::Step::Next { p: q, out: o } ==> q > p,
    decreases stream::left(b, p),
{
    if p <= b.len() + stream::overread() {
        let (sym, n) = stream::sym_at(b, ll, p);
        if n >= 1 {
            if sym < 256 {
                lemma_items_advance(b, ll, ol, p + n, out.push(sym as u8), cap);
            } else if sym > 256 {
                let (len, dist, q) = stream::match_at(b, ol, sym, p + n);
                if q > p {
                    lemma_items_advance(b, ll, ol, q, stream::copy_match(out, dist, len as nat), cap);
                }
            }
        }
    }
}

/// Reading the codes of a dynamic block moves past them.
pub proof fn lemma_header_advances(b: Seq<bool>, p: int)
    ensures
        stream::dynamic_header(b, p) matches Some((q, ll, ol)) ==> q > p,
{
    let np = 4 + bits::le_val(b, p + 10, 4);
    bits::lemma_le_bound(b, p + 10, 4);
    let nl = 257 + bits::le_val(b, p, 5);
    let no = 1 + bits::le_val(b, p + 5, 5);
    let pre = stream::precode_lens(b, p + 14, np, 19);
    decode::lemma_read_lens_advances(b, pre, p + 14 + 3 * np, Seq::empty(), nl + no);
}

/// Decoding a block moves past at least its header.
pub proof fn lemma_block_advances(b: Seq<bool>, p: int, out: Seq<u8>, cap: int)
    ensures
        stream::block(b, p, out, cap) matches stream::Step::Next { p: q, out: o } ==> q > p,
{
    let kind = bits::le_val(b, p + 1, 2);
    if kind == 0 {
        bits::lemma_le_bound(b, stream::align8(p + 3), 16);
    } else if kind == 1 {
        lemma_items_advance(
            b,
            stream::static_litlen_lens(),
            stream::static_offset_lens(),
            p + 3,
            out,
            cap,
        );
    } else if kind == 2 {
        lemma_header_advances(b, p + 3);
        match stream::dynamic_header(b, p + 3) {
            Some((q, ll, ol)) => {
                lemma_items_advance(b, ll, ol, q, out, cap);
            },
            None => {},
        }
    }
}

/// Each meaning of a stream has one answer: what a stream that is in order holds, with how
/// much of the input it takes, or the error that says what is wrong. Another answer is given
/// only if decompression is stopped.
pub proof fn law_answers(
    r: Result<DecompressOutcome, DecompressionError>,
    u: container::Unwrapped,
    output: Seq<u8>,
)
    requires
        agrees(r, u, output, true),
    ensures
        match u {
            container::Unwrapped::Done { consumed, out } => r matches Ok(o) && o.input_consumed
                == consumed && o.output_written == out.len() && output.take(out.len() as int) == out,
            container::Unwrapped::BadHeader => r == Err::<DecompressOutcome, DecompressionError>(
                DecompressionError::InvalidHeader,
            ),
            container::Unwrapped::BadData => r == Err::<DecompressOutcome, DecompressionError>(
                DecompressionError::BadData,
            ),
            container::Unwrapped::NoSpace => r == Err::<DecompressOutcome, DecompressionError>(
                DecompressionError::InsufficientSpace,
            ),
            container::Unwrapped::BadFooter => r == Err::<DecompressOutcome, DecompressionError>(
                DecompressionError::ChecksumMismatch,
            ),
        },
{
}

} // verus!
