//! Streaming DEFLATE/zlib/gzip decompression.
//!
//! [`StreamDecompressor`] is a pull-based streaming decompressor that works with any
//! input source via the [`InputSource`] trait. The caller controls the loop, and each
//! [`fill`](StreamDecompressor::fill) is bounded by the output capacity.

use crate::bits;
use crate::container;
use crate::decompress::decode;
use crate::decompress::decode::{decode_item, Item};
use crate::decompress::laws;
use crate::decompress::phases;
use crate::decompress::reader::BitInput;
use crate::decompress::source::InputSource;
use crate::decompress::staging::StagedReader;
use crate::decompress::window;
use crate::decompress::window::{Window, WrapperFormat, LOOKBACK_SIZE};
use crate::decompress::{BlockKind, Decompressor};
use crate::error::{DecompressionError, StreamError};
use crate::fast_bytes;
use crate::stream;
use vstd::arithmetic::power2::*;
use vstd::prelude::*;

verus! {

/// Default output buffer capacity for [`StreamDecompressor`]: 64 KiB.
///
/// Good for general-purpose streaming. For scanline-at-a-time workloads, use twice
/// the length of a line instead.
pub const DEFAULT_CAPACITY: usize = 65536;

/// What comes next in the stream.
#[derive(Debug, Clone, Copy, PartialEq, Eq, Structural)]
pub enum StreamState {
    /// The header of the wrapper.
    WrapperHeader,
    /// The header of a block.
    BlockHeader,
    /// Literals and matches.
    CompressedData,
    /// Stored bytes, `remaining` of them.
    UncompressedData { remaining: usize },
    /// The footer of the wrapper.
    WrapperFooter,
    /// Nothing.
    Done,
}

/// The part of a match that did not fit into the buffer.
#[derive(Debug, Clone, Copy)]
pub struct PendingMatch {
    pub offset: usize,
    pub length: usize,
}

/// Pull-based streaming DEFLATE/zlib/gzip decompressor.
///
/// The `capacity` parameter of the constructors controls how many bytes of
/// decompressed output can be buffered before the caller must drain them via
/// [`peek`](Self::peek) / [`advance`](Self::advance). Internally, the buffer holds
/// 32 KiB lookback more.
pub struct StreamDecompressor<S> {
    pub(crate) source: S,
    pub(crate) inner: Decompressor,
    pub(crate) input: StagedReader,
    pub(crate) window: Window,
    pub(crate) state: StreamState,
    pub(crate) is_final_block: bool,
    pub(crate) pending_match: Option<PendingMatch>,
    /// The bytes of the footer that have been read.
    pub(crate) footer: [u8; 8],
    pub(crate) footer_pos: usize,
    pub(crate) skip_checksum: bool,
    pub(crate) checksum_matched: Option<bool>,
    /// Why decompression failed, if it did.
    pub(crate) failed: Option<DecompressionError>,
    /// The codeword lengths of the current block's codes.
    pub(crate) codes: Ghost<(Seq<u8>, Seq<u8>)>,
    /// The bit position where the last block ended.
    pub(crate) end: Ghost<int>,
}

impl<S> StreamDecompressor<S> {
    /// Consume the decompressor and return the underlying input source.
    pub fn into_inner(self) -> (r: S)
        ensures
            r == self.source_of(),
    {
        self.source
    }

    /// The underlying input source.
    pub closed spec fn source_of(&self) -> S {
        self.source
    }

    /// All bytes of the stream, those included that have not been read.
    pub closed spec fn total(&self) -> Seq<u8> {
        self.input.data()
    }

    /// The format of the stream.
    pub closed spec fn format(&self) -> WrapperFormat {
        self.window.format
    }

    /// All output so far.
    pub closed spec fn output(&self) -> Seq<u8> {
        self.window.out()
    }

    /// The output that has not been consumed.
    pub closed spec fn unread(&self) -> Seq<u8> {
        self.window.unread()
    }

    /// How many bytes of output are buffered at most.
    pub closed spec fn capacity(&self) -> int {
        self.window.capacity as int
    }

    /// Checksum mismatches are recorded only.
    pub closed spec fn skips_checksum(&self) -> bool {
        self.skip_checksum
    }

    /// The stream has come to its end.
    pub closed spec fn done(&self) -> bool {
        self.state == StreamState::Done && self.failed is None
    }

    /// Whether the footer agreed, once it has been read.
    pub closed spec fn matched(&self) -> Option<bool> {
        self.checksum_matched
    }

    /// Decompression has failed.
    pub closed spec fn failure(&self) -> Option<DecompressionError> {
        self.failed
    }

    /// What the stream means.
    pub open spec fn outcome(&self) -> phases::Streamed {
        phases::streamed(self.format(), self.total())
    }

    /// The output when decoding the stream stops, for whatever reason.
    pub open spec fn decoded(&self) -> Seq<u8> {
        phases::decoded(self.format(), self.total())
    }

    /// An error that the stream gives.
    pub open spec fn is_error(&self, e: DecompressionError) -> bool {
        match e {
            DecompressionError::InvalidHeader => self.outcome() is BadHeader,
            DecompressionError::BadData => self.outcome() is BadData,
            DecompressionError::ChecksumMismatch => !self.skips_checksum() && (
            self.outcome() matches phases::Streamed::Done { out, matched } && matched == Some(
                false,
            )),
            _ => false,
        }
    }

    /// Whether the wrapper checksum matched after decompression.
    ///
    /// - `None`: footer not yet processed, or raw DEFLATE
    /// - `Some(true)`: checksum matched
    /// - `Some(false)`: checksum mismatch, where mismatches are recorded only
    pub fn checksum_matched(&self) -> (r: Option<bool>)
        ensures
            r == self.matched(),
    {
        self.checksum_matched
    }
}

/// The order of what comes next where nothing is read in between.
pub open spec fn rank(state: StreamState) -> int {
    match state {
        StreamState::UncompressedData { remaining } => 3,
        StreamState::Done => 0,
        StreamState::WrapperFooter => 1,
        _ => 2,
    }
}

impl<S: InputSource> StreamDecompressor<S> {
    /// The output with the pending match.
    pub(crate) closed spec fn full(&self) -> Seq<u8> {
        match self.pending_match {
            Some(pm) => stream::copy_match(
                self.window.all@,
                pm.offset as int,
                pm.length as nat,
            ),
            None => self.window.all@,
        }
    }

    /// What decoding the stream gives is what decoding the rest gives.
    pub(crate) closed spec fn in_phase(&self) -> bool {
        let t = self.input.data();
        let p = self.input.pos();
        let all = self.window.all@;
        let h = phases::header_len(self.window.format, t);
        let s = phases::rest_blocks(t, 8 * h->0, Seq::empty());
        let d = phases::seen_blocks(t, 8 * h->0, Seq::empty());
        match self.state {
            StreamState::WrapperHeader => {
                &&& self.window.format != WrapperFormat::Raw
                &&& p == 0
                &&& self.input.bitsleft == 0
                &&& self.input.overread_count == 0
                &&& all.len() == 0
            },
            StreamState::BlockHeader => {
                &&& h is Some
                &&& s == phases::rest_blocks(t, p, all)
                &&& d == phases::seen_blocks(t, p, all)
            },
            StreamState::CompressedData => {
                &&& h is Some
                &&& s == phases::rest_items(
                    t,
                    self.is_final_block,
                    self.codes@.0,
                    self.codes@.1,
                    p,
                    self.full(),
                )
                &&& d == phases::seen_items(
                    t,
                    self.is_final_block,
                    self.codes@.0,
                    self.codes@.1,
                    p,
                    self.full(),
                )
                &&& decode::block_tables(
                    self.inner.litlen_decode_table@,
                    self.inner.offset_decode_table@,
                    self.inner.litlen_results@,
                    self.inner.offset_results@,
                    self.codes@.0,
                    self.codes@.1,
                )
            },
            StreamState::UncompressedData { remaining } => {
                &&& h is Some
                &&& p % 8 == 0
                &&& p <= 8 * t.len()
                &&& remaining <= 65535
                &&& s == phases::rest_stored(t, self.is_final_block, p, remaining as int, all)
                &&& d == phases::seen_stored(t, self.is_final_block, p, remaining as int, all)
            },
            StreamState::WrapperFooter => {
                let f = stream::bytes_for(self.end@);
                &&& h is Some
                &&& self.window.format != WrapperFormat::Raw
                &&& 0 <= self.end@ <= 8 * t.len()
                &&& s == (stream::Step::Next { p: self.end@, out: all })
                &&& d == all
                &&& self.footer_pos <= phases::footer_len(self.window.format)
                &&& p == 8 * (f + self.footer_pos)
                &&& f + self.footer_pos <= t.len()
                &&& forall|i: int|
                    0 <= i < self.footer_pos ==> #[trigger] self.footer@[i] == t[f + i]
            },
            StreamState::Done => {
                &&& self.outcome() == (phases::Streamed::Done {
                    out: self.window.out(),
                    matched: self.checksum_matched,
                })
                &&& self.decoded() == all
                &&& !self.skip_checksum ==> self.checksum_matched != Some(false)
            },
        }
    }

    /// The parts fit together.
    pub(crate) closed spec fn live(&self) -> bool {
        &&& self.failed is None
        &&& self.inner.wf()
        &&& self.input.wf()
        &&& self.input.fits(self.source)
        &&& self.window.wf()
        &&& (self.pending_match matches Some(pm) ==> {
            &&& self.state == StreamState::CompressedData
            &&& 1 <= pm.offset <= LOOKBACK_SIZE
            &&& pm.offset <= self.window.all@.len()
            &&& 1 <= pm.length <= 258
        })
        &&& self.state != StreamState::WrapperHeader ==> self.full().len() <= 258
            * self.input.pos()
        &&& self.state != StreamState::Done ==> self.checksum_matched is None
        &&& self.in_phase()
    }

    /// The decompressor is in order, or has failed for a reason.
    pub closed spec fn wf(&self) -> bool {
        &&& self.window.wf()
        &&& match self.failed {
            None => self.live(),
            Some(e) => {
                &&& self.is_error(e)
                &&& self.window.all@ == self.decoded()
                &&& self.checksum_matched is None
            },
        }
    }

    /// The stream is the same, and output has at most been added.
    pub(crate) closed spec fn grown(&self, o: Self) -> bool {
        &&& self.input.data() == o.input.data()
        &&& self.window.same_setup(o.window)
        &&& self.skip_checksum == o.skip_checksum
        &&& self.window.all@.len() >= o.window.all@.len()
        &&& self.window.all@.take(o.window.all@.len() as int) == o.window.all@
        &&& self.window.all@.len() - (self.window.write_pos - self.window.read_pos)
            == o.window.all@.len() - (o.window.write_pos - o.window.read_pos)
    }

    /// Something has been read, or is closer to the end.
    pub(crate) closed spec fn further(&self, o: Self) -> bool {
        let b = bits::to_bits(o.input.data());
        let l0 = stream::left(b, o.input.pos());
        let l1 = stream::left(b, self.input.pos());
        ||| l1 < l0
        ||| l1 == l0 && rank(self.state) < rank(o.state)
        ||| l1 == l0 && rank(self.state) == rank(o.state) && self.full().len()
            - self.window.all@.len() < o.full().len() - o.window.all@.len()
    }

    /// What is still to be done: each call of [`fill`](Self::fill) that has something to do
    /// and reports no error makes it less.
    pub closed spec fn to_go(&self) -> int {
        1200 * stream::left(bits::to_bits(self.input.data()), self.input.pos()) + 300 * rank(
            self.state,
        ) + self.full().len() - self.window.all@.len()
    }

    /// It is never less than nothing.
    pub proof fn law_to_go(&self)
        requires
            self.wf(),
            self.failure() is None,
        ensures
            self.to_go() >= 0,
    {
        if let Some(pm) = self.pending_match {
            phases::lemma_copy_len(self.window.all@, pm.offset as int, pm.length as nat);
        }
    }

    /// What is closer to the end has less to do.
    proof fn lemma_further(a: Self, b: Self)
        requires
            a.live(),
            b.live(),
            b.input.data() == a.input.data(),
            b.further(a),
        ensures
            b.to_go() < a.to_go(),
    {
        if let Some(pm) = a.pending_match {
            phases::lemma_copy_len(a.window.all@, pm.offset as int, pm.length as nat);
        }
        if let Some(pm) = b.pending_match {
            phases::lemma_copy_len(b.window.all@, pm.offset as int, pm.length as nat);
        }
    }

    /// No more output is buffered than there is capacity for, and a stream has only so much
    /// output: since each call of [`fill`](Self::fill) that reports no error comes to the end
    /// or leaves output to consume, draining a stream ends.
    pub proof fn law_bounded(&self)
        requires
            self.wf(),
        ensures
            self.unread().len() <= self.capacity(),
            self.failure() is None ==> self.output().len() <= phases::room(self.total()),
    {
        if let Some(pm) = self.pending_match {
            phases::lemma_copy_len(self.window.all@, pm.offset as int, pm.length as nat);
        }
        if self.failed is None {
            assert(self.window.all@.len() <= self.full().len());
            assert(self.input.pos() <= 8 * (self.total().len() + 8));
        }
    }

    /// The output is at all times the beginning of what decoding the stream gives, and all of
    /// it once the stream is done or has failed.
    pub proof fn law_output(&self)
        requires
            self.wf(),
        ensures
            phases::begins_with(self.decoded(), self.output()),
            self.done() || self.failure() is Some ==> self.output() == self.decoded(),
    {
        let t = self.input.data();
        let p = self.input.pos();
        let all = self.window.all@;
        assert(all.take(all.len() as int) =~= all);
        if self.failed is None {
            match self.state {
                StreamState::WrapperHeader => {
                    assert(self.decoded().take(0) =~= all);
                },
                StreamState::BlockHeader => {
                    phases::lemma_seen_begins(t, p, all);
                },
                StreamState::CompressedData => {
                    let full = self.full();
                    if let Some(pm) = self.pending_match {
                        phases::lemma_copy_len(all, pm.offset as int, pm.length as nat);
                    }
                    assert(full.take(all.len() as int) =~= all);
                    phases::lemma_seen_items_begins(
                        t,
                        self.is_final_block,
                        self.codes@.0,
                        self.codes@.1,
                        p,
                        full,
                    );
                    phases::lemma_begins(all, full, self.decoded());
                },
                StreamState::UncompressedData { remaining } => {
                    phases::lemma_seen_stored_begins(
                        t,
                        self.is_final_block,
                        p,
                        remaining as int,
                        all,
                    );
                },
                _ => {},
            }
        }
    }

    /// A stream that has failed is not done, and there is no verdict on its checksum.
    pub proof fn law_failed(&self)
        requires
            self.wf(),
            self.failure() is Some,
        ensures
            !self.done(),
            self.matched() is None,
            self.is_error(self.failure()->0),
    {
    }

    /// A stream is done only if it is in order; its checksum is wrong only where mismatches
    /// are recorded only.
    pub proof fn law_done(&self)
        requires
            self.wf(),
            self.done(),
        ensures
            self.failure() is None,
            self.outcome() == (phases::Streamed::Done {
                out: self.output(),
                matched: self.matched(),
            }),
            self.skips_checksum() || self.matched() != Some(false),
    {
    }

    /// Of a stream that is valid except for a wrong checksum all data is decoded. Where
    /// mismatches are recorded only, it never fails, and once it is done the mismatch is
    /// known. Otherwise it is never done, and the mismatch is the only way to fail.
    pub proof fn law_wrong_checksum(&self, data: Seq<u8>)
        requires
            self.wf(),
            self.outcome() == (phases::Streamed::Done { out: data, matched: Some(false) }),
        ensures
            self.skips_checksum() ==> self.failure() is None,
            self.skips_checksum() && self.done() ==> self.output() == data && self.matched()
                == Some(false),
            !self.skips_checksum() ==> !self.done(),
            !self.skips_checksum() ==> (self.failure() matches Some(e) ==> e
                == DecompressionError::ChecksumMismatch && self.output() == data),
    {
        phases::law_decoded(self.format(), self.total());
    }

    /// Two decompressors of the same stream that handle checksums in the same way end in the
    /// same way, with the same output: both are done, or both fail with the same error. So
    /// one that was reset decodes a stream as a new one does.
    pub proof fn law_same_stream(a: Self, b: Self)
        requires
            a.wf(),
            b.wf(),
            a.total() == b.total(),
            a.format() == b.format(),
            a.skips_checksum() == b.skips_checksum(),
            a.done() || a.failure() is Some,
            b.done() || b.failure() is Some,
        ensures
            a.output() == b.output(),
            a.done() == b.done(),
            a.matched() == b.matched(),
            a.failure() == b.failure(),
    {
        a.law_output();
        b.law_output();
    }

    /// Where checksum mismatches are recorded only, a mismatch is no failure.
    pub proof fn law_skipped_checksum(&self)
        requires
            self.wf(),
            self.skips_checksum(),
        ensures
            self.failure() != Some(DecompressionError::ChecksumMismatch),
    {
    }

    /// What a call of [`fill`](Self::fill) that reports no error does.
    pub open spec fn filled(a: Self, b: Self) -> bool {
        &&& b.wf()
        &&& b.total() == a.total()
        &&& b.format() == a.format()
        &&& b.skips_checksum() == a.skips_checksum()
        &&& phases::begins_with(b.output(), a.output())
        &&& b.unread() == a.unread() + b.output().skip(a.output().len() as int)
        &&& b.failure() is None
        &&& b.done() || b.unread().len() > 0
    }

    /// What a call of [`advance`](Self::advance) by `n` bytes does.
    pub open spec fn advanced(a: Self, b: Self, n: int) -> bool {
        &&& b.wf()
        &&& b.total() == a.total()
        &&& b.format() == a.format()
        &&& b.skips_checksum() == a.skips_checksum()
        &&& b.output() == a.output()
        &&& b.unread() == a.unread().skip(n)
        &&& b.failure() == a.failure()
        &&& b.done() == a.done()
    }

    /// What a call of [`fill`](Self::fill) that reports no error and one of
    /// [`advance`](Self::advance) over all of its output do to a decompressor whose output
    /// has been consumed.
    pub open spec fn round(a: Self, b: Self, chunk: Seq<u8>) -> bool {
        &&& b.wf()
        &&& b.total() == a.total()
        &&& b.format() == a.format()
        &&& b.skips_checksum() == a.skips_checksum()
        &&& b.output() == a.output() + chunk
        &&& b.unread().len() == 0
        &&& b.failure() is None
        &&& b.done() || chunk.len() > 0
    }

    /// Filling and consuming all of the output is a round.
    pub proof fn law_round(a: Self, m: Self, b: Self)
        requires
            a.unread().len() == 0,
            Self::filled(a, m),
            Self::advanced(m, b, m.unread().len() as int),
        ensures
            Self::round(a, b, m.unread()),
    {
        let n = a.output().len() as int;
        assert(a.output() + m.unread() =~= m.output()) by {
            assert(m.unread() =~= m.output().skip(n));
            assert(m.output().take(n) + m.output().skip(n) =~= m.output());
        }
    }

    /// The chunks of the first `k` rounds.
    pub open spec fn chunks_of(chunks: Seq<Seq<u8>>, k: int) -> Seq<u8>
        decreases k,
    {
        if k <= 0 {
            Seq::empty()
        } else {
            Self::chunks_of(chunks, k - 1) + chunks[k - 1]
        }
    }

    /// The rounds that go on while the stream is not done, from a new decompressor on.
    pub open spec fn drains(states: Seq<Self>, chunks: Seq<Seq<u8>>) -> bool {
        &&& states.len() == chunks.len() + 1
        &&& states[0].wf()
        &&& states[0].failure() is None
        &&& states[0].output().len() == 0
        &&& states[0].unread().len() == 0
        &&& forall|k: int|
            0 <= k < chunks.len() ==> !(#[trigger] states[k]).done() && Self::round(
                states[k],
                states[k + 1],
                chunks[k],
            )
    }

    /// After `k` rounds.
    proof fn lemma_drains(states: Seq<Self>, chunks: Seq<Seq<u8>>, k: int)
        requires
            Self::drains(states, chunks),
            0 <= k <= chunks.len(),
        ensures
            states[k].wf(),
            states[k].failure() is None,
            states[k].total() == states[0].total(),
            states[k].format() == states[0].format(),
            states[k].skips_checksum() == states[0].skips_checksum(),
            states[k].output() == Self::chunks_of(chunks, k),
            k > 0 && !states[k].done() ==> states[k].output().len() >= k,
            k > 0 ==> states[k].output().len() >= k - 1,
        decreases k,
    {
        if k > 0 {
            Self::lemma_drains(states, chunks, k - 1);
            assert(!states[k - 1].done());
            assert(Self::round(states[k - 1], states[k - 1 + 1], chunks[k - 1]));
        } else {
            assert(states[0].output() =~= Self::chunks_of(chunks, 0));
        }
    }

    /// Draining a stream in rounds ends after finitely many of them, no more than it can have
    /// output. A stream that is in order does not fail meanwhile, and the chunks together are
    /// its data once it is done. So what decompresses as a whole is drained to the same.
    pub proof fn law_drain(states: Seq<Self>, chunks: Seq<Seq<u8>>)
        requires
            Self::drains(states, chunks),
        ensures
            chunks.len() <= phases::room(states[0].total()) + 1,
            states.last().output() == Self::chunks_of(chunks, chunks.len() as int),
            states.last().done() ==> states[0].outcome() == (phases::Streamed::Done {
                out: Self::chunks_of(chunks, chunks.len() as int),
                matched: states.last().matched(),
            }),
            forall|cap: int|
                states[0].format() == WrapperFormat::Raw && (#[trigger] container::deflate(
                    states[0].total(),
                    cap,
                )) is Done && states.last().done() ==> Self::chunks_of(
                    chunks,
                    chunks.len() as int,
                ) == container::deflate(states[0].total(), cap)->out,
    {
        let n = chunks.len() as int;
        Self::lemma_drains(states, chunks, n);
        states[n].law_bounded();
        assert forall|cap: int|
            states[0].format() == WrapperFormat::Raw && (#[trigger] container::deflate(
                states[0].total(),
                cap,
            )) is Done && states.last().done() implies Self::chunks_of(chunks, n)
            == container::deflate(states[0].total(), cap)->out by {
            laws::law_stream_parity(states[0].total(), cap);
        }
    }

    /// A stream that is in order does not fail: no round reports bad data.
    pub proof fn law_good_stream(&self)
        requires
            self.wf(),
            self.outcome() matches phases::Streamed::Done { out, matched } && (matched != Some(
                false,
            ) || self.skips_checksum()),
        ensures
            self.failure() is None,
    {
    }

    /// When true, checksum mismatches in zlib/gzip wrappers are recorded instead of
    /// returning an error. The decompressed data is still returned.
    ///
    /// After decompression completes, [`checksum_matched`](Self::checksum_matched)
    /// tells if the checksum was correct.
    #[must_use]
    pub fn with_skip_checksum(self, skip: bool) -> (r: Self)
        ensures
            self.wf() && !self.done() && self.failure() is None ==> r.wf(),
            r.source_of() == self.source_of(),
            r.total() == self.total(),
            r.format() == self.format(),
            r.output() == self.output(),
            r.unread() == self.unread(),
            r.capacity() == self.capacity(),
            r.done() == self.done(),
            r.matched() == self.matched(),
            r.failure() == self.failure(),
            r.skips_checksum() == skip,
    {
        let mut s: Self = self;
        s.skip_checksum = skip;
        s
    }

    fn new(source: S, capacity: usize, wrapper: WrapperFormat) -> (r: Self)
        requires
            0 < capacity,
            LOOKBACK_SIZE + capacity <= usize::MAX,
        ensures
            r.wf(),
            r.total() == source.remaining(),
            r.source_of() == source,
            r.format() == wrapper,
            r.output() == Seq::<u8>::empty(),
            r.unread() == Seq::<u8>::empty(),
            r.capacity() == capacity,
            !r.skips_checksum(),
            !r.done(),
            r.matched() is None,
            r.failure() is None,
    {
        let input: StagedReader = StagedReader::new(Ghost(source.remaining()));
        let win: Window = Window::new(capacity, wrapper);
        assert(input.whole@.skip(0) =~= source.remaining());
        assert(win.out() =~= Seq::<u8>::empty());
        assert(win.unread() =~= Seq::<u8>::empty());
        StreamDecompressor {
            source,
            inner: Decompressor::new(),
            input,
            window: win,
            state: if wrapper == WrapperFormat::Raw {
                StreamState::BlockHeader
            } else {
                StreamState::WrapperHeader
            },
            is_final_block: false,
            pending_match: None,
            footer: [0u8; 8],
            footer_pos: 0,
            skip_checksum: false,
            checksum_matched: None,
            failed: None,
            codes: Ghost((Seq::empty(), Seq::empty())),
            end: Ghost(0),
        }
    }

    /// Create a streaming decompressor for raw DEFLATE data.
    pub fn deflate(source: S, capacity: usize) -> (r: Self)
        requires
            0 < capacity,
            LOOKBACK_SIZE + capacity <= usize::MAX,
        ensures
            r.wf(),
            r.total() == source.remaining(),
            r.source_of() == source,
            r.format() == WrapperFormat::Raw,
            r.output() == Seq::<u8>::empty(),
            r.unread() == Seq::<u8>::empty(),
            r.capacity() == capacity,
            !r.skips_checksum(),
            !r.done(),
            r.matched() is None,
            r.failure() is None,
    {
        Self::new(source, capacity, WrapperFormat::Raw)
    }

    /// Create a streaming decompressor for zlib-wrapped data.
    pub fn zlib(source: S, capacity: usize) -> (r: Self)
        requires
            0 < capacity,
            LOOKBACK_SIZE + capacity <= usize::MAX,
        ensures
            r.wf(),
            r.total() == source.remaining(),
            r.source_of() == source,
            r.format() == WrapperFormat::Zlib,
            r.output() == Seq::<u8>::empty(),
            r.unread() == Seq::<u8>::empty(),
            r.capacity() == capacity,
            !r.skips_checksum(),
            !r.done(),
            r.matched() is None,
            r.failure() is None,
    {
        Self::new(source, capacity, WrapperFormat::Zlib)
    }

    /// Create a streaming decompressor for gzip-wrapped data.
    pub fn gzip(source: S, capacity: usize) -> (r: Self)
        requires
            0 < capacity,
            LOOKBACK_SIZE + capacity <= usize::MAX,
        ensures
            r.wf(),
            r.total() == source.remaining(),
            r.source_of() == source,
            r.format() == WrapperFormat::Gzip,
            r.output() == Seq::<u8>::empty(),
            r.unread() == Seq::<u8>::empty(),
            r.capacity() == capacity,
            !r.skips_checksum(),
            !r.done(),
            r.matched() is None,
            r.failure() is None,
    {
        Self::new(source, capacity, WrapperFormat::Gzip)
    }

    /// Borrow all available decompressed output.
    pub fn peek(&self) -> (r: &[u8])
        requires
            self.wf(),
        ensures
            r@ == self.unread(),
    {
        self.window.peek()
    }

    /// Mark `n` bytes of output as consumed.
    pub fn advance(&mut self, n: usize)
        requires
            old(self).wf(),
            n <= old(self).unread().len(),
        ensures
            Self::advanced(*old(self), *final(self), n as int),
            final(self).wf(),
            final(self).total() == old(self).total(),
            final(self).format() == old(self).format(),
            final(self).output() == old(self).output(),
            final(self).unread() == old(self).unread().skip(n as int),
            final(self).to_go() == old(self).to_go(),
            final(self).capacity() == old(self).capacity(),
            final(self).skips_checksum() == old(self).skips_checksum(),
            final(self).done() == old(self).done(),
            final(self).matched() == old(self).matched(),
            final(self).failure() == old(self).failure(),
    {
        self.window.advance(n);
    }

    /// Returns `true` when the stream is fully decompressed and checksums verified.
    pub fn is_done(&self) -> (r: bool)
        requires
            self.wf(),
        ensures
            r == self.done(),
            r ==> self.outcome() == (phases::Streamed::Done {
                out: self.output(),
                matched: self.matched(),
            }),
    {
        self.state == StreamState::Done && self.failed.is_none()
    }

    /// Reset the decompressor for a new stream of the same format, keeping buffer
    /// allocations.
    ///
    /// From then on it is as good as a new one with the same format, capacity and checksum
    /// handling.
    pub fn reset(&mut self, source: S)
        requires
            old(self).wf(),
        ensures
            final(self).wf(),
            final(self).total() == source.remaining(),
            final(self).source_of() == source,
            final(self).format() == old(self).format(),
            final(self).output() == Seq::<u8>::empty(),
            final(self).unread() == Seq::<u8>::empty(),
            final(self).capacity() == old(self).capacity(),
            final(self).skips_checksum() == old(self).skips_checksum(),
            !final(self).done(),
            final(self).matched() is None,
            final(self).failure() is None,
    {
        self.input = StagedReader::new(Ghost(source.remaining()));
        self.source = source;
        self.inner = Decompressor::new();
        self.window.reset();
        self.state = if self.window.format == WrapperFormat::Raw {
            StreamState::BlockHeader
        } else {
            StreamState::WrapperHeader
        };
        self.is_final_block = false;
        self.pending_match = None;
        self.footer_pos = 0;
        self.checksum_matched = None;
        self.failed = None;
        assert(self.input.whole@.skip(0) =~= self.source.remaining());
        assert(self.window.out() =~= Seq::<u8>::empty());
        assert(self.window.unread() =~= Seq::<u8>::empty());
    }

    /// Output that has grown twice has grown.
    proof fn lemma_grown(a: Self, b: Self, c: Self)
        requires
            b.grown(a),
            c.grown(b),
        ensures
            c.grown(a),
    {
        let n = a.window.all@.len() as int;
        assert(c.window.all@.take(n) =~= c.window.all@.take(b.window.all@.len() as int).take(n));
    }

    /// Record why decompression fails.
    fn fail(&mut self, e: DecompressionError) -> (r: StreamError<S::Error>)
        requires
            old(self).window.wf(),
            old(self).is_error(e),
            old(self).window.all@ == old(self).decoded(),
            old(self).checksum_matched is None,
        ensures
            final(self).wf(),
            final(self).grown(*old(self)),
            final(self).window == old(self).window,
            final(self).failed == Some(e),
            r == StreamError::<S::Error>::Decompress(e),
    {
        self.failed = Some(e);
        assert(self.window.all@.take(self.window.all@.len() as int) =~= self.window.all@);
        StreamError::Decompress(e)
    }

    /// Go on behind a block.
    fn finish_block(&mut self) -> (r: Result<(), StreamError<S::Error>>)
        requires
            old(self).failed is None,
            old(self).inner.wf(),
            old(self).input.wf(),
            old(self).input.fits(old(self).source),
            old(self).window.wf(),
            old(self).pending_match is None,
            old(self).window.all@.len() <= 258 * old(self).input.pos(),
            old(self).checksum_matched is None,
            ({
                let t = old(self).input.data();
                let h = phases::header_len(old(self).window.format, t);
                &&& h is Some
                &&& phases::rest_blocks(t, 8 * h->0, Seq::empty())
                    == phases::rest_after(
                    t,
                    old(self).is_final_block,
                    old(self).input.pos(),
                    old(self).window.all@,
                )
                &&& phases::seen_blocks(t, 8 * h->0, Seq::empty())
                    == phases::seen_after(
                    t,
                    old(self).is_final_block,
                    old(self).input.pos(),
                    old(self).window.all@,
                )
            }),
        ensures
            final(self).wf(),
            final(self).grown(*old(self)),
            r is Ok ==> final(self).live() && final(self).input.pos() >= old(self).input.pos()
                && rank(final(self).state) <= 2,
            r matches Err(e) ==> e matches StreamError::Decompress(d) && final(self).failed == Some(
                d,
            ),
    {
        let ghost all = self.window.all@;
        let ghost p = self.input.pos();
        assert(all.take(all.len() as int) =~= all);
        if !self.is_final_block {
            self.state = StreamState::BlockHeader;
            return Ok(());
        }
        if self.input.past_end() {
            return Err(self.fail(DecompressionError::BadData));
        }
        if self.window.format == WrapperFormat::Raw {
            self.state = StreamState::Done;
        } else {
            proof {
                self.end@ = p;
            }
            self.input.skip_to_byte();
            self.footer_pos = 0;
            self.state = StreamState::WrapperFooter;
        }
        Ok(())
    }

    /// Read the lengths of a stored block that begins at bit position `p`.
    #[verifier::spinoff_prover]
    fn start_stored(&mut self, p: Ghost<int>) -> (r: Result<(), StreamError<S::Error>>)
        requires
            old(self).failed is None,
            old(self).inner.wf(),
            old(self).input.wf(),
            old(self).input.fits(old(self).source),
            old(self).window.wf(),
            old(self).pending_match is None,
            old(self).checksum_matched is None,
            old(self).window.all@.len() <= 258 * p@,
            0 <= p@ <= 8 * old(self).input.data().len() + stream::overread(),
            old(self).input.pos() == p@ + 3,
            old(self).input.bitsleft >= 53,
            bits::le_val(bits::to_bits(old(self).input.data()), p@ + 1, 2) == 0,
            old(self).is_final_block == stream::is_last(bits::to_bits(old(self).input.data()), p@),
            ({
                let t = old(self).input.data();
                let h = phases::header_len(old(self).window.format, t);
                &&& h is Some
                &&& phases::rest_blocks(t, 8 * h->0, Seq::empty())
                    == phases::rest_blocks(t, p@, old(self).window.all@)
                &&& phases::seen_blocks(t, 8 * h->0, Seq::empty())
                    == phases::seen_blocks(t, p@, old(self).window.all@)
            }),
        ensures
            final(self).wf(),
            final(self).grown(*old(self)),
            r is Ok ==> final(self).live() && final(self).input.pos() > p@,
            r matches Err(StreamError::Decompress(d)) ==> final(self).failed == Some(d),
            r matches Err(e) ==> e is Decompress,
    {
        let ghost t = self.input.data();
        let ghost all = self.window.all@;
        proof {
            assert(all.take(all.len() as int) =~= all);
            phases::lemma_rest_stored(t, p@, all);
            lemma2_to64();
        }
        self.input.skip_to_byte();
        let len: u64 = self.input.peek_bits(16);
        self.input.consume(16);
        let nlen: u64 = self.input.peek_bits(16);
        self.input.consume(16);
        if self.input.past_end() || len + nlen != 65535 {
            return Err(self.fail(DecompressionError::BadData));
        }
        self.state = StreamState::UncompressedData { remaining: len as usize };
        Ok(())
    }

    /// Read the header of a block.
    #[verifier::spinoff_prover]
    #[verifier::rlimit(60)]
    fn parse_block_header(&mut self) -> (r: Result<(), StreamError<S::Error>>)
        requires
            old(self).live(),
            old(self).state == StreamState::BlockHeader,
        ensures
            final(self).wf(),
            final(self).grown(*old(self)),
            r is Ok ==> final(self).live() && final(self).further(*old(self)),
            r matches Err(StreamError::Decompress(d)) ==> final(self).failed == Some(d),
            r matches Err(StreamError::Source(e)) ==> final(self).live() && !S::never_fails(),
    {
        let ghost t = self.input.data();
        let ghost all = self.window.all@;
        let ghost p = self.input.pos();
        assert(all.take(all.len() as int) =~= all);
        match self.input.fill_input(&mut self.source) {
            Ok(_) => {},
            Err(e) => {
                return Err(StreamError::Source(e));
            },
        }
        assert(self.input.at_hand(2403));
        match self.inner.start_block(&mut self.input) {
            Ok((last, BlockKind::Coded { ll, ol })) => {
                proof {
                    phases::lemma_rest_coded(t, p, all, self.input.pos(), ll@, ol@);
                    self.codes@ = (ll@, ol@);
                }
                self.is_final_block = last;
                self.state = StreamState::CompressedData;
                Ok(())
            },
            Ok((last, BlockKind::Stored)) => {
                self.is_final_block = last;
                self.start_stored(Ghost(p))
            },
            Err(_) => {
                proof {
                    phases::lemma_rest_bad(t, p, all);
                }
                Err(self.fail(DecompressionError::BadData))
            },
        }
    }

    /// Write what fits of the pending match.
    #[verifier::spinoff_prover]
    fn write_pending(&mut self)
        requires
            old(self).live(),
            old(self).state == StreamState::CompressedData,
            old(self).window.write_pos < old(self).window.buffer@.len(),
        ensures
            final(self).live(),
            final(self).state == StreamState::CompressedData,
            final(self).grown(*old(self)),
            final(self).input.pos() == old(self).input.pos(),
            final(self).full() == old(self).full(),
            final(self).window.read_pos == old(self).window.read_pos,
            old(self).pending_match is None ==> *final(self) == *old(self),
            old(self).pending_match is Some ==> final(self).window.all@.len()
                > old(self).window.all@.len(),
            final(self).pending_match is Some ==> final(self).window.write_pos == final(self).window.buffer@.len(),
    {
        let ghost all = self.window.all@;
        assert(all.take(all.len() as int) =~= all);
        match self.pending_match {
            Some(pm) => {
                let space: usize = self.window.output_space();
                let n: usize = if pm.length > space {
                    space
                } else {
                    pm.length
                };
                proof {
                    phases::lemma_copy_parts(
                        all,
                        pm.offset as int,
                        n as nat,
                        (pm.length - n) as nat,
                    );
                    phases::lemma_copy_len(all, pm.offset as int, n as nat);
                    let c = stream::copy_match(all, pm.offset as int, n as nat);
                    assert(c.take(all.len() as int) =~= all);
                }
                self.window.put_match(pm.offset, n);
                self.pending_match = if n < pm.length {
                    Some(PendingMatch { offset: pm.offset, length: pm.length - n })
                } else {
                    None
                };
            },
            None => {},
        }
    }

    /// Decode literals and matches until the buffer is full or the block ends.
    #[verifier::spinoff_prover]
    #[verifier::rlimit(60)]
    fn decompress_block(&mut self) -> (r: Result<(), StreamError<S::Error>>)
        requires
            old(self).live(),
            old(self).state == StreamState::CompressedData,
            old(self).window.write_pos < old(self).window.buffer@.len(),
        ensures
            final(self).wf(),
            final(self).grown(*old(self)),
            r is Ok ==> final(self).live() && final(self).further(*old(self)),
            r matches Err(StreamError::Decompress(d)) ==> final(self).failed == Some(d),
            r matches Err(StreamError::Source(e)) ==> final(self).live() && !S::never_fails(),
    {
        self.write_pending();
        let ghost t = self.input.data();
        let ghost b = bits::to_bits(t);
        loop
            invariant
                self.live(),
                self.state == StreamState::CompressedData,
                self.grown(*old(self)),
                t == self.input.data(),
                t == old(self).input.data(),
                b == bits::to_bits(t),
                self.pending_match is Some ==> self.window.write_pos == self.window.buffer@.len(),
                self.input.pos() >= old(self).input.pos(),
                old(self).live(),
                old(self).state == StreamState::CompressedData,
                old(self).window.write_pos < old(self).window.buffer@.len(),
                stream::left(b, self.input.pos()) < stream::left(b, old(self).input.pos()) || (
                self.input.pos() == old(self).input.pos() && self.full() == old(self).full() && (
                old(self).pending_match is Some ==> self.window.all@.len()
                    > old(self).window.all@.len()) && (old(self).pending_match is None
                    ==> self.window.write_pos < self.window.buffer@.len())),
            decreases stream::left(b, self.input.pos()),
        {
            if self.window.output_space() == 0 {
                return Ok(());
            }
            let ghost p = self.input.pos();
            let ghost all = self.window.all@;
            if self.input.len - self.input.pos < 16 {
                match self.input.fill_input(&mut self.source) {
                    Ok(_) => {},
                    Err(e) => {
                        return Err(StreamError::Source(e));
                    },
                }
            }
            let item: Item = match decode_item(
                &self.inner.litlen_decode_table,
                &self.inner.offset_decode_table,
                &mut self.input,
                Ghost(self.inner.litlen_results@),
                Ghost(self.inner.offset_results@),
                Ghost(self.codes@.0),
                Ghost(self.codes@.1),
            ) {
                Ok(item) => item,
                Err(_) => {
                    proof {
                        phases::lemma_rest_past(
                            t,
                            self.is_final_block,
                            self.codes@.0,
                            self.codes@.1,
                            p,
                            all,
                        );
                    }
                    let ghost before = *self;
                    let e: StreamError<S::Error> = self.fail(DecompressionError::BadData);
                    proof {
                        Self::lemma_grown(*old(self), before, *self);
                    }
                    return Err(e);
                },
            };
            proof {
                phases::lemma_rest_item(
                    t,
                    self.is_final_block,
                    self.codes@.0,
                    self.codes@.1,
                    p,
                    all,
                    item,
                    self.input.pos(),
                );
            }
            match item {
                Item::Literal(byte) => {
                    self.window.put(byte);
                    assert(self.window.all@.take(old(self).window.all@.len() as int) =~= old(self).window.all@) by {
                        assert(all.take(old(self).window.all@.len() as int) == old(self).window.all@);
                    }
                },
                Item::End => {
                    let ghost before = *self;
                    let r: Result<(), StreamError<S::Error>> = self.finish_block();
                    proof {
                        Self::lemma_grown(*old(self), before, *self);
                    }
                    return r;
                },
                Item::Match { length, offset } => {
                    if !self.window.reaches(offset) {
                        let ghost before = *self;
                        let e: StreamError<S::Error> = self.fail(DecompressionError::BadData);
                        proof {
                            Self::lemma_grown(*old(self), before, *self);
                        }
                        return Err(e);
                    }
                    self.pending_match = Some(PendingMatch { offset, length });
                    proof {
                        phases::lemma_copy_len(all, offset as int, length as nat);
                    }
                    let ghost before = *self;
                    self.write_pending();
                    proof {
                        Self::lemma_grown(*old(self), before, *self);
                    }
                },
            }
        }
    }

    /// Copy stored bytes until the buffer is full or the block ends.
    #[verifier::spinoff_prover]
    #[verifier::rlimit(60)]
    fn copy_uncompressed(&mut self, remaining: usize) -> (r: Result<(), StreamError<S::Error>>)
        requires
            old(self).live(),
            old(self).state == (StreamState::UncompressedData { remaining }),
            old(self).window.write_pos < old(self).window.buffer@.len(),
        ensures
            final(self).wf(),
            final(self).grown(*old(self)),
            r is Ok ==> final(self).live() && final(self).further(*old(self)),
            r matches Err(StreamError::Decompress(d)) ==> final(self).failed == Some(d),
            r matches Err(StreamError::Source(e)) ==> final(self).live() && !S::never_fails(),
    {
        let ghost t = self.input.data();
        let mut left: usize = remaining;
        assert(self.window.all@.take(self.window.all@.len() as int) =~= self.window.all@);
        while left > 0 && self.window.output_space() > 0
            invariant
                left <= remaining,
                self.live(),
                self.state == (StreamState::UncompressedData { remaining: left }),
                self.grown(*old(self)),
                t == self.input.data(),
                t == old(self).input.data(),
                self.input.pos() == old(self).input.pos() + 8 * (remaining - left),
                left == remaining ==> self.window.write_pos < self.window.buffer@.len(),
            decreases left,
        {
            let ghost p = self.input.pos();
            let ghost all = self.window.all@;
            proof {
                phases::lemma_rest_byte(t, self.is_final_block, p, left as int, all);
            }
            match self.input.next_byte(&mut self.source) {
                Ok(Some(byte)) => {
                    self.window.put(byte);
                    left = left - 1;
                    self.state = StreamState::UncompressedData { remaining: left };
                    assert(self.window.all@.take(old(self).window.all@.len() as int) =~= old(self).window.all@) by {
                        assert(all.take(old(self).window.all@.len() as int) == old(self).window.all@);
                    }
                },
                Ok(None) => {
                    let ghost before = *self;
                    let e: StreamError<S::Error> = self.fail(DecompressionError::BadData);
                    proof {
                        Self::lemma_grown(*old(self), before, *self);
                    }
                    return Err(e);
                },
                Err(e) => {
                    return Err(StreamError::Source(e));
                },
            }
        }
        if left == 0 {
            proof {
                phases::lemma_rest_no_byte(
                    t,
                    self.is_final_block,
                    self.input.pos(),
                    self.window.all@,
                );
            }
            let ghost before = *self;
            let r: Result<(), StreamError<S::Error>> = self.finish_block();
            proof {
                Self::lemma_grown(*old(self), before, *self);
            }
            return r;
        }
        Ok(())
    }

    /// Read the header of the wrapper.
    #[verifier::spinoff_prover]
    fn parse_wrapper_header(&mut self) -> (r: Result<(), StreamError<S::Error>>)
        requires
            old(self).live(),
            old(self).state == StreamState::WrapperHeader,
        ensures
            final(self).wf(),
            final(self).grown(*old(self)),
            r is Ok ==> final(self).live() && final(self).further(*old(self)),
            r matches Err(StreamError::Decompress(d)) ==> final(self).failed == Some(d),
            r matches Err(StreamError::Source(e)) ==> final(self).live() && !S::never_fails(),
    {
        let ghost t = self.input.data();
        let ghost all = self.window.all@;
        assert(all =~= Seq::empty());
        assert(all.take(all.len() as int) =~= all);
        match self.input.fill_input(&mut self.source) {
            Ok(_) => {},
            Err(e) => {
                return Err(StreamError::Source(e));
            },
        }
        let d: &[u8] = self.input.staged_bytes();
        assert(d@ =~= phases::first_bytes(t));
        let n: Option<usize> = match self.window.format {
            WrapperFormat::Raw => Some(0),
            WrapperFormat::Zlib => if is_zlib_header(d) {
                Some(2)
            } else {
                None
            },
            WrapperFormat::Gzip => parse_gzip_header(d),
        };
        match n {
            Some(n) => {
                self.input.skip_staged(n);
                self.state = StreamState::BlockHeader;
                Ok(())
            },
            None => Err(self.fail(DecompressionError::InvalidHeader)),
        }
    }

    /// Read the bytes of the footer.
    #[verifier::spinoff_prover]
    #[verifier::rlimit(40)]
    fn read_footer(&mut self, size: usize) -> (r: Result<(), StreamError<S::Error>>)
        requires
            old(self).live(),
            old(self).state == StreamState::WrapperFooter,
            size == phases::footer_len(old(self).window.format),
        ensures
            final(self).wf(),
            final(self).grown(*old(self)),
            r is Ok ==> final(self).live() && final(self).state == StreamState::WrapperFooter
                && final(self).footer_pos == size && final(self).window == old(self).window
                && final(self).input.pos() >= old(self).input.pos(),
            r matches Err(StreamError::Decompress(d)) ==> final(self).failed == Some(d),
            r matches Err(StreamError::Source(e)) ==> final(self).live() && !S::never_fails(),
    {
        let ghost all = self.window.all@;
        assert(all.take(all.len() as int) =~= all);
        while self.footer_pos < size
            invariant
                self.live(),
                self.state == StreamState::WrapperFooter,
                self.grown(*old(self)),
                self.window == old(self).window,
                self.input.pos() >= old(self).input.pos(),
                size == phases::footer_len(self.window.format),
                size <= 8,
            decreases size - self.footer_pos,
        {
            match self.input.next_byte(&mut self.source) {
                Ok(Some(byte)) => {
                    self.footer[self.footer_pos] = byte;
                    self.footer_pos = self.footer_pos + 1;
                },
                Ok(None) => {
                    let ghost before = *self;
                    let e: StreamError<S::Error> = self.fail(DecompressionError::BadData);
                    proof {
                        Self::lemma_grown(*old(self), before, *self);
                    }
                    return Err(e);
                },
                Err(e) => {
                    return Err(StreamError::Source(e));
                },
            }
        }
        Ok(())
    }

    /// The footer that has been read agrees with the output.
    #[verifier::spinoff_prover]
    fn compare_footer(&self) -> (r: bool)
        requires
            self.live(),
            self.state == StreamState::WrapperFooter,
            self.footer_pos == phases::footer_len(self.window.format),
            self.window.checksum_watermark == self.window.write_pos,
        ensures
            r == phases::footer_matches(
                self.window.format,
                self.input.data(),
                stream::bytes_for(self.end@),
                self.window.out(),
            ),
    {
        let ghost t = self.input.data();
        let ghost f = stream::bytes_for(self.end@);
        let ghost out = self.window.out();
        assert(out.take(out.len() as int) =~= out);
        proof {
            assert(self.footer@[0] == t[f + 0]);
            assert(self.footer@[1] == t[f + 1]);
            assert(self.footer@[2] == t[f + 2]);
            assert(self.footer@[3] == t[f + 3]);
        }
        if self.window.format == WrapperFormat::Zlib {
            load_be32(&self.footer, 0) == self.window.checksum
        } else {
            proof {
                assert(self.footer@[4] == t[f + 4]);
                assert(self.footer@[5] == t[f + 5]);
                assert(self.footer@[6] == t[f + 6]);
                assert(self.footer@[7] == t[f + 7]);
                let n = out.len() as int;
                assert(n % 0x1_0000_0000_0000_0000 % 0x1_0000_0000 == n % 0x1_0000_0000);
            }
            load_le32(&self.footer, 0) == self.window.checksum && load_le32(&self.footer, 4) == (
            self.window.total_output % 0x1_0000_0000) as u32
        }
    }

    /// Read the footer of the wrapper and compare it with the output.
    #[verifier::spinoff_prover]
    #[verifier::rlimit(40)]
    fn parse_wrapper_footer(&mut self) -> (r: Result<(), StreamError<S::Error>>)
        requires
            old(self).live(),
            old(self).state == StreamState::WrapperFooter,
        ensures
            final(self).wf(),
            final(self).grown(*old(self)),
            r is Ok ==> final(self).live() && final(self).state == StreamState::Done
                && final(self).further(*old(self)),
            r matches Err(StreamError::Decompress(d)) ==> final(self).failed == Some(d),
            r matches Err(StreamError::Source(e)) ==> final(self).live() && !S::never_fails(),
    {
        assert(self.window.all@.take(self.window.all@.len() as int) =~= self.window.all@);
        self.window.flush_checksum();
        let size: usize = if self.window.format == WrapperFormat::Zlib {
            4
        } else {
            8
        };
        let ghost before = *self;
        let r: Result<(), StreamError<S::Error>> = self.read_footer(size);
        proof {
            Self::lemma_grown(*old(self), before, *self);
        }
        match r {
            Ok(_) => {},
            Err(e) => {
                return Err(e);
            },
        }
        let matched: bool = self.compare_footer();
        if !matched && !self.skip_checksum {
            let ghost before = *self;
            let e: StreamError<S::Error> = self.fail(DecompressionError::ChecksumMismatch);
            proof {
                Self::lemma_grown(*old(self), before, *self);
            }
            return Err(e);
        }
        self.checksum_matched = Some(matched);
        self.state = StreamState::Done;
        Ok(())
    }

    /// Pull from source, decompress into internal buffer.
    ///
    /// Returns a reference to available decompressed output (same as
    /// [`peek`](Self::peek)). Call [`peek`](Self::peek)/[`advance`](Self::advance) to
    /// consume output, then `fill` again.
    ///
    /// Once the data has been found to be bad, every call returns the same error. If
    /// the source fails, nothing is lost, and the next call goes on from there.
    pub fn fill(&mut self) -> (r: Result<&[u8], StreamError<S::Error>>)
        requires
            old(self).wf(),
        ensures
            final(self).wf(),
            final(self).total() == old(self).total(),
            final(self).format() == old(self).format(),
            final(self).capacity() == old(self).capacity(),
            final(self).skips_checksum() == old(self).skips_checksum(),
            final(self).output().len() >= old(self).output().len(),
            final(self).output().take(old(self).output().len() as int) == old(self).output(),
            final(self).unread() == old(self).unread() + final(self).output().skip(
                old(self).output().len() as int,
            ),
            match r {
                Ok(data) => {
                    &&& Self::filled(*old(self), *final(self))
                    &&& data@ == final(self).unread()
                    &&& final(self).failure() is None
                    &&& final(self).done() || data@.len() > 0
                    &&& final(self).done() ==> final(self).outcome() == (phases::Streamed::Done {
                        out: final(self).output(),
                        matched: final(self).matched(),
                    })
                },
                Err(StreamError::Decompress(e)) => {
                    &&& final(self).is_error(e)
                    &&& final(self).failure() == Some(e)
                },
                Err(StreamError::Source(e)) => {
                    &&& final(self).failure() is None
                    &&& !S::never_fails()
                },
            },
            phases::begins_with(final(self).decoded(), final(self).output()),
            final(self).done() || final(self).failure() is Some ==> final(self).output()
                == final(self).decoded(),
            old(self).failure() matches Some(e) ==> r matches Err(StreamError::Decompress(d)) && d
                == e && *final(self) == *old(self),
            old(self).failure() is None && (old(self).done() || old(self).unread().len()
                >= old(self).capacity()) ==> r is Ok && *final(self) == *old(self),
            r is Ok && !old(self).done() && old(self).unread().len() < old(self).capacity()
                ==> final(self).to_go() < old(self).to_go(),
    {
        let r: Result<(), StreamError<S::Error>> = self.run();
        proof {
            self.law_output();
            assert(self.unread() =~= old(self).unread() + self.output().skip(
                old(self).output().len() as int,
            ));
        }
        match r {
            Ok(_) => Ok(self.peek()),
            Err(e) => Err(e),
        }
    }

    /// Decompress until there is output, or the stream ends.
    #[verifier::spinoff_prover]
    #[verifier::rlimit(60)]
    fn run(&mut self) -> (r: Result<(), StreamError<S::Error>>)
        requires
            old(self).wf(),
        ensures
            final(self).wf(),
            final(self).grown(*old(self)),
            match r {
                Ok(_) => {
                    &&& final(self).live()
                    &&& final(self).state == StreamState::Done || final(self).window.write_pos
                        > final(self).window.read_pos
                },
                Err(StreamError::Decompress(e)) => {
                    &&& final(self).is_error(e)
                    &&& final(self).failed == Some(e)
                },
                Err(StreamError::Source(e)) => final(self).live() && !S::never_fails(),
            },
            old(self).failed matches Some(e) ==> r matches Err(StreamError::Decompress(d)) && d == e
                && *final(self) == *old(self),
            old(self).failed is None && (old(self).state == StreamState::Done || old(
            self).window.write_pos - old(self).window.read_pos >= old(self).window.capacity)
                ==> r is Ok && *final(self) == *old(self),
            r is Ok && old(self).state != StreamState::Done && old(self).window.write_pos
                - old(self).window.read_pos < old(self).window.capacity ==> final(self).to_go()
                < old(self).to_go(),
    {
        assert(self.window.all@.take(self.window.all@.len() as int) =~= self.window.all@);
        match self.failed {
            Some(e) => {
                return Err(StreamError::Decompress(e));
            },
            None => {},
        }
        if self.window.peek_len() >= self.window.capacity || self.state == StreamState::Done {
            return Ok(());
        }
        if self.window.output_space() == 0 {
            self.window.compact();
        }
        let ghost t = self.input.data();
        let ghost b = bits::to_bits(t);
        loop
            invariant
                self.live(),
                self.grown(*old(self)),
                t == self.input.data(),
                b == bits::to_bits(t),
                old(self).failed is None,
                old(self).state != StreamState::Done,
                old(self).window.write_pos - old(self).window.read_pos < old(self).window.capacity,
                self.state != StreamState::Done,
                self.window.write_pos - self.window.read_pos < self.window.capacity,
                self.window.write_pos < self.window.buffer@.len(),
                self.to_go() <= old(self).to_go(),
            decreases
                    stream::left(b, self.input.pos()),
                    rank(self.state),
                    self.full().len() - self.window.all@.len(),
        {
            let ghost before = *self;
            let prev: usize = self.window.write_pos;
            let r: Result<(), StreamError<S::Error>> = match self.state {
                StreamState::WrapperHeader => self.parse_wrapper_header(),
                StreamState::BlockHeader => self.parse_block_header(),
                StreamState::CompressedData => self.decompress_block(),
                StreamState::UncompressedData { remaining } => self.copy_uncompressed(remaining),
                StreamState::WrapperFooter => self.parse_wrapper_footer(),
                StreamState::Done => Ok(()),
            };
            proof {
                Self::lemma_grown(*old(self), before, *self);
                match self.pending_match {
                    Some(pm) => {
                        phases::lemma_copy_len(
                            self.window.all@,
                            pm.offset as int,
                            pm.length as nat,
                        );
                    },
                    None => {},
                }
            }
            match r {
                Ok(_) => {},
                Err(e) => {
                    return Err(e);
                },
            }
            proof {
                Self::lemma_further(before, *self);
            }
            if self.window.peek_len() >= self.window.capacity || self.state == StreamState::Done {
                return Ok(());
            }
            // Nothing was written, but there is output: let the caller have it.
            if self.window.write_pos == prev && self.window.peek_len() > 0 {
                return Ok(());
            }
            if self.window.output_space() == 0 {
                self.window.compact();
                if self.window.output_space() == 0 {
                    return Ok(());
                }
            }
        }
    }
}

/// The bytes start with a valid zlib header.
fn is_zlib_header(d: &[u8]) -> (r: bool)
    ensures
        r == phases::zlib_header(d@),
{
    if d.len() < 2 {
        return false;
    }
    let cmf: u32 = d[0] as u32;
    let flg: u32 = d[1] as u32;
    (256 * cmf + flg) % 31 == 0 && cmf % 16 == 8 && cmf / 16 <= 7 && (flg / 32) % 2 == 0
}

/// The position after a zero-terminated string.
fn skip_string(d: &[u8], from: usize) -> (r: Option<usize>)
    requires
        from <= d@.len(),
    ensures
        r matches Some(p) ==> phases::string_end(d@, from as int) == Some(p as int) && p
            <= d@.len(),
        r is None ==> phases::string_end(d@, from as int) is None,
{
    let n: usize = d.len();
    let mut pos: usize = from;
    while pos < n && d[pos] != 0
        invariant
            from <= pos <= n == d@.len(),
            container::zero_from(d@, from as int) == container::zero_from(d@, pos as int),
        decreases n - pos,
    {
        pos = pos + 1;
    }
    if pos >= n {
        return None;
    }
    Some(pos + 1)
}

/// The length of a valid gzip header.
fn parse_gzip_header(d: &[u8]) -> (r: Option<usize>)
    ensures
        r matches Some(p) ==> phases::gzip_header(d@) == Some(p as int) && 10 <= p <= d@.len(),
        r is None ==> phases::gzip_header(d@) is None,
{
    let n: usize = d.len();
    if n < 10 {
        return None;
    }
    if d[0] != 0x1F || d[1] != 0x8B || d[2] != 8 || d[3] >= 32 {
        return None;
    }
    let flg: u8 = d[3];
    let mut pos: usize = 10;
    if (flg / 4) % 2 == 1 {
        if n < 12 {
            return None;
        }
        let xlen: usize = d[10] as usize + 256 * (d[11] as usize);
        if xlen > n - 12 {
            return None;
        }
        pos = 12 + xlen;
    }
    let ghost a = pos as int;
    assert(phases::extra_end(d@, 10) == Some(a));
    if (flg / 8) % 2 == 1 {
        match skip_string(d, pos) {
            Some(p) => {
                proof {
                    container::lemma_zero_from(d@, pos as int);
                }
                pos = p;
            },
            None => {
                return None;
            },
        }
    }
    let ghost b = pos as int;
    assert(phases::name_end(d@, a) == Some(b));
    if (flg / 16) % 2 == 1 {
        match skip_string(d, pos) {
            Some(p) => {
                proof {
                    container::lemma_zero_from(d@, pos as int);
                }
                pos = p;
            },
            None => {
                return None;
            },
        }
    }
    assert(phases::comment_end(d@, b) == Some(pos as int));
    if (flg / 2) % 2 == 1 {
        if n - pos < 2 {
            return None;
        }
        pos = pos + 2;
    }
    Some(pos)
}

/// The number that four bytes form, most significant first.
fn load_be32(d: &[u8; 8], pos: usize) -> (r: u32)
    requires
        pos <= 4,
    ensures
        r == container::be32(d@, pos as int),
{
    16777216 * (d[pos] as u32) + 65536 * (d[pos + 1] as u32) + 256 * (d[pos + 2] as u32) + d[pos
        + 3] as u32
}

/// The number that four bytes form, least significant first.
fn load_le32(d: &[u8; 8], pos: usize) -> (r: u32)
    requires
        pos <= 4,
    ensures
        r == fast_bytes::le32(d@, pos as int),
{
    16777216 * (d[pos + 3] as u32) + 65536 * (d[pos + 2] as u32) + 256 * (d[pos + 1] as u32) + d[pos]
        as u32
}

} // verus!
