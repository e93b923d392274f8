//! Saving and restoring what incremental compression has built up.

use crate::bits;
use crate::compress::block;
use crate::compress::block::{DeflateCodes, DeflateFreqs};
use crate::compress::block_split::BlockSplitStats;
use crate::compress::chain_model;
use crate::compress::chains::Parse;
use crate::compress::compressor::Compressor;
use crate::compress::fastest;
use crate::compress::incremental;
use crate::compress::level::{CompressionLevel, InternalStrategy};
use crate::compress::near_optimal::NearOptimalState;
use crate::compress::optimal;
use crate::compress::pack;
use crate::compress::sequences::Sequence;
use crate::compress::stored;
use crate::compress::uniqueness;
use crate::error::CompressionError;
use crate::matchfinder::fast_ht::FastHtMatchfinder;
use crate::matchfinder::hc::HcMatchfinder;
use crate::matchfinder::ht::HtMatchfinder;
use crate::matchfinder::turbo::TurboMatchfinder;
use crate::matchfinder::HashMatchfinder;
use vstd::prelude::*;

verus! {

/// Snapshot of compressor state for cheap save/restore during incremental
/// compression.
///
/// Holds only what changes between incremental calls: matchfinder tables, frequency
/// counters, Huffman codes, and cursor position.
pub struct CompressorSnapshot {
    /// Frequency counters.
    pub freqs: DeflateFreqs,
    /// Split statistics.
    pub split_stats: BlockSplitStats,
    /// Codes of the last block.
    pub codes: DeflateCodes,
    /// Hash table matchfinder.
    pub ht_mf: Option<HtMatchfinder>,
    /// Hash chains matchfinder.
    pub hc_mf: Option<HcMatchfinder>,
    /// How far the data has been compressed.
    pub incremental_pos: usize,
    /// The base of the matchfinder's entries.
    pub incremental_base_offset: usize,
}

/// What incremental compression goes by.
#[verifier::ext_equal]
pub struct IncrementalState {
    pub freqs: DeflateFreqs,
    pub split_stats: BlockSplitStats,
    pub codes: DeflateCodes,
    pub ht: Option<Seq<i16>>,
    pub hc: Option<(Seq<i16>, Seq<i16>, Seq<i16>)>,
    pub pos: usize,
    pub base: usize,
}

/// The table of a hash table matchfinder.
pub open spec fn ht_table(mf: Option<HtMatchfinder>) -> Option<Seq<i16>> {
    match mf {
        Some(m) => Some(m.hash_tab@),
        None => None,
    }
}

/// The tables of a hash chains matchfinder.
pub open spec fn hc_tables(mf: Option<HcMatchfinder>) -> Option<(Seq<i16>, Seq<i16>, Seq<i16>)> {
    match mf {
        Some(m) => Some((m.hash3_tab@, m.hash4_tab@, m.next_tab@)),
        None => None,
    }
}

fn copy_ht(mf: &Option<HtMatchfinder>) -> (r: Option<HtMatchfinder>)
    ensures
        ht_table(r) == ht_table(*mf),
        r is Some <==> mf is Some,
{
    match mf {
        Some(m) => Some(m.clone()),
        None => None,
    }
}

fn copy_hc(mf: &Option<HcMatchfinder>) -> (r: Option<HcMatchfinder>)
    ensures
        hc_tables(r) == hc_tables(*mf),
        r is Some <==> mf is Some,
{
    match mf {
        Some(m) => Some(m.clone()),
        None => None,
    }
}

fn copy_turbo(mf: &Option<TurboMatchfinder>) -> (r: Option<TurboMatchfinder>)
    ensures
        r is Some <==> mf is Some,
        mf matches Some(m) ==> r->0.hash_tab@ == m.hash_tab@ && (fastest::valid(*m)
            ==> fastest::valid(r->0)),
{
    match mf {
        Some(m) => {
            let c: TurboMatchfinder = m.clone();
            proof {
                if fastest::valid(*m) {
                    let (b, n) = choose|b: int, n: int| m.wf(b, n);
                    assert(c.wf(b, n));
                }
            }
            Some(c)
        },
        None => None,
    }
}

fn copy_fast_ht(mf: &Option<FastHtMatchfinder>) -> (r: Option<FastHtMatchfinder>)
    ensures
        r is Some <==> mf is Some,
        mf matches Some(m) ==> r->0.hash_tab@ == m.hash_tab@ && (fastest::valid(*m)
            ==> fastest::valid(r->0)),
{
    match mf {
        Some(m) => {
            let c: FastHtMatchfinder = m.clone();
            proof {
                if fastest::valid(*m) {
                    let (b, n) = choose|b: int, n: int| m.wf(b, n);
                    assert(c.wf(b, n));
                }
            }
            Some(c)
        },
        None => None,
    }
}

fn copy_near_optimal(ns: &Option<NearOptimalState>) -> (r: Option<NearOptimalState>)
    ensures
        r is Some <==> ns is Some,
        ns matches Some(s) ==> (optimal::valid(*s) ==> optimal::valid(r->0)),
        ns matches Some(s) ==> r->0.tuning() == s.tuning() && r->0.memory() == s.memory(),
{
    match ns {
        Some(s) => {
            let c: NearOptimalState = s.clone();
            proof {
                if optimal::valid(*s) {
                    let (b, n) = choose|b: int, n: int| s.bt_mf.wf(b, n);
                    assert(c.bt_mf.wf(b, n));
                }
            }
            Some(c)
        },
        None => None,
    }
}

impl CompressorSnapshot {
    /// What the snapshot holds.
    pub open spec fn state(&self) -> IncrementalState {
        IncrementalState {
            freqs: self.freqs,
            split_stats: self.split_stats,
            codes: self.codes,
            ht: ht_table(self.ht_mf),
            hc: hc_tables(self.hc_mf),
            pos: self.incremental_pos,
            base: self.incremental_base_offset,
        }
    }

    /// The snapshot is one of a compressor of this level.
    pub open spec fn fits(&self, level: CompressionLevel) -> bool {
        &&& self.codes.bounded()
        &&& self.ht_mf is Some <==> level.strategy == InternalStrategy::HtGreedy
        &&& self.hc_mf is Some <==> (level.strategy == InternalStrategy::Greedy || level.strategy
            == InternalStrategy::Lazy || level.strategy == InternalStrategy::Lazy2)
        &&& (self.ht_mf matches Some(mf) ==> mf.wf(
            self.incremental_base_offset as int,
            self.incremental_pos as int,
        ))
        &&& (self.hc_mf matches Some(mf) ==> mf.wf(
            self.incremental_base_offset as int,
            self.incremental_pos as int,
        ))
        &&& self.incremental_base_offset <= self.incremental_pos
    }
}

impl Clone for CompressorSnapshot {
    fn clone(&self) -> (r: Self)
        ensures
            r.state() == self.state(),
            forall|level: CompressionLevel| #[trigger] self.fits(level) ==> r.fits(level),
    {
        CompressorSnapshot {
            freqs: self.freqs,
            split_stats: self.split_stats,
            codes: self.codes,
            ht_mf: copy_ht(&self.ht_mf),
            hc_mf: copy_hc(&self.hc_mf),
            incremental_pos: self.incremental_pos,
            incremental_base_offset: self.incremental_base_offset,
        }
    }
}

impl Clone for Compressor {
    fn clone(&self) -> (r: Self)
        ensures
            self.wf() ==> r.wf(),
            r.same_setup(*self),
            r.state() == self.state(),
            r.max_passthrough_size == self.max_passthrough_size,
            r.static_codes == self.static_codes,
    {
        let seqs: Vec<Sequence> = self.parse.seqs.clone();
        Compressor {
            level: self.level,
            params: self.params,
            max_passthrough_size: self.max_passthrough_size,
            parse: Parse {
                freqs: self.parse.freqs,
                split_stats: self.parse.split_stats,
                seqs,
            },
            codes: self.codes,
            static_codes: self.static_codes,
            turbo_mf: copy_turbo(&self.turbo_mf),
            fast_ht_mf: copy_fast_ht(&self.fast_ht_mf),
            ht_mf: copy_ht(&self.ht_mf),
            hc_mf: copy_hc(&self.hc_mf),
            near_optimal: copy_near_optimal(&self.near_optimal),
            incremental_pos: self.incremental_pos,
            incremental_base_offset: self.incremental_base_offset,
        }
    }
}

impl Default for Compressor {
    fn default() -> (r: Self)
        ensures
            r.wf(),
            r.level.libdeflate_level is None,
            r.level.effort == 15,
            r.incremental_pos == 0,
            incremental::forgotten(r),
            r.estimate_codes() == r.static_codes,
    {
        Compressor::new(CompressionLevel::default())
    }
}

impl Compressor {
    /// What incremental compression goes by.
    pub open spec fn state(&self) -> IncrementalState {
        IncrementalState {
            freqs: self.parse.freqs,
            split_stats: self.parse.split_stats,
            codes: self.codes,
            ht: ht_table(self.ht_mf),
            hc: hc_tables(self.hc_mf),
            pos: self.incremental_pos,
            base: self.incremental_base_offset,
        }
    }

    /// Save the current compressor state for later restoration.
    ///
    /// Only meaningful for incremental compression.
    pub fn snapshot(&self) -> (r: CompressorSnapshot)
        ensures
            r.state() == self.state(),
            self.wf() ==> r.fits(self.level),
    {
        CompressorSnapshot {
            freqs: self.parse.freqs,
            split_stats: self.parse.split_stats,
            codes: self.codes,
            ht_mf: copy_ht(&self.ht_mf),
            hc_mf: copy_hc(&self.hc_mf),
            incremental_pos: self.incremental_pos,
            incremental_base_offset: self.incremental_base_offset,
        }
    }

    /// Restore compressor state from a previously saved snapshot.
    ///
    /// After restoration, the compressor is in the state in which the snapshot was
    /// taken. The snapshot must have been taken of a compressor of the same level.
    pub fn restore(&mut self, snap: CompressorSnapshot)
        requires
            old(self).wf(),
            snap.fits(old(self).level),
        ensures
            final(self).wf(),
            final(self).same_setup(*old(self)),
            final(self).state() == snap.state(),
    {
        self.parse.freqs = snap.freqs;
        self.parse.split_stats = snap.split_stats;
        self.codes = snap.codes;
        self.ht_mf = snap.ht_mf;
        self.hc_mf = snap.hc_mf;
        self.incremental_pos = snap.incremental_pos;
        self.incremental_base_offset = snap.incremental_base_offset;
    }
}

/// Two compressors of a level write the same of the same data: they have come to the same
/// place with the same tables, or both start afresh.
pub open spec fn same_place(c1: Compressor, c2: Compressor) -> bool {
    &&& c1.level == c2.level
    &&& c1.incremental_pos == c2.incremental_pos
    &&& c1.incremental_pos == 0 || {
        &&& c1.incremental_base_offset == c2.incremental_base_offset
        &&& ht_table(c1.ht_mf) == ht_table(c2.ht_mf)
        &&& hc_tables(c1.hc_mf) == hc_tables(c2.hc_mf)
    }
}

/// The codes that they have made last have the same lengths.
pub open spec fn same_codes(c1: Compressor, c2: Compressor) -> bool {
    &&& c1.codes.lens_litlen@ == c2.codes.lens_litlen@
    &&& c1.codes.lens_offset@ == c2.codes.lens_offset@
}

/// Whatever a compressor does after a snapshot was taken of it, restoring the
/// snapshot brings back the state in which it was taken. It goes on as it would have done
/// right after the snapshot.
pub proof fn law_snapshot_restore(
    before: Compressor,
    snap: CompressorSnapshot,
    between: Compressor,
    after: Compressor,
)
    requires
        before.wf(),
        call_ensures(Compressor::snapshot, (&before,), snap),
        between.wf(),
        between.same_setup(before),
        after.same_setup(between),
        after.state() == snap.state(),
    ensures
        snap.fits(between.level),
        after.state() == before.state(),
        same_place(before, after),
        same_codes(before, after),
{
    let a = after.state();
    let b = before.state();
    assert(a.pos == after.incremental_pos && a.base == after.incremental_base_offset);
    assert(b.pos == before.incremental_pos && b.base == before.incremental_base_offset);
    assert(a.ht == ht_table(after.ht_mf) && a.hc == hc_tables(after.hc_mf));
    assert(b.ht == ht_table(before.ht_mf) && b.hc == hc_tables(before.hc_mf));
    assert(a.codes == after.codes && b.codes == before.codes);
}

/// A compressor that was reset is at the same place as a new one of its level.
pub proof fn law_reset_is_new(c: Compressor, new: Compressor)
    requires
        c.level == new.level,
        c.incremental_pos == 0,
        new.incremental_pos == 0,
    ensures
        same_place(c, new),
{
}

/// Two compressors at the same place write the same bytes of the same data, and are then at
/// the same place again, with the same codes.
pub proof fn law_same_place_same_bytes(
    c1: Compressor,
    c2: Compressor,
    d1: Compressor,
    d2: Compressor,
    x: Seq<u8>,
    y: Seq<u8>,
    h: Seq<u8>,
    last: bool,
)
    requires
        c1.wf(),
        c2.wf(),
        d1.wf(),
        d2.wf(),
        same_place(c1, c2),
        incremental::incremental_strategy(c1.level.strategy),
        c1.incremental_pos <= h.len(),
        d1.level == c1.level,
        d2.level == c2.level,
        d1.incremental_pos == h.len(),
        d2.incremental_pos == h.len(),
        incremental::holds_piece(c1, d1, x, h, last),
        incremental::holds_piece(c2, d2, y, h, last),
    ensures
        x == y,
        same_place(d1, d2),
        same_codes(d1, d2),
{
    let e = Seq::<bool>::empty();
    let b1 = choose|b: Seq<bool>|
        {
            &&& #[trigger] incremental::moved_on(c1, d1, h, e, b, last)
            &&& bits::to_bits(x) == pack::padded(b)
        };
    let b2 = choose|b: Seq<bool>|
        {
            &&& #[trigger] incremental::moved_on(c2, d2, h, e, b, last)
            &&& bits::to_bits(y) == pack::padded(b)
        };
    assert(c1.params == c2.params);
    if c1.level.strategy == InternalStrategy::HtGreedy {
        let setup = incremental::ht_setup(c1);
        assert(setup == incremental::ht_setup(c2));
        assert(fastest::fast_coded::<HtMatchfinder>(setup, h, e, b1, last));
        assert(fastest::fast_coded::<HtMatchfinder>(setup, h, e, b2, last));
        uniqueness::law_fast_once::<HtMatchfinder>(setup, h, e, b1, b2, last);
        uniqueness::law_fast_state_once::<HtMatchfinder>(
            setup,
            h,
            e,
            b1,
            last,
            d1.ht_mf->0.table(),
            d2.ht_mf->0.table(),
            d1.incremental_base_offset as int,
            d2.incremental_base_offset as int,
            d1.codes.lens_litlen@,
            d1.codes.lens_offset@,
            d2.codes.lens_litlen@,
            d2.codes.lens_offset@,
        );
    } else {
        let look = incremental::incremental_look(c1.level.strategy);
        let setup = incremental::hc_setup(c1, look);
        assert(setup == incremental::hc_setup(c2, look));
        uniqueness::law_chain_once(setup, h, e, b1, b2, last);
        let p = choose|p: chain_model::Place|
            {
                &&& #[trigger] chain_model::written_to(setup, h, e, b1, last, p)
                &&& incremental::hc_end(d1, h, p)
            };
        let q = choose|p: chain_model::Place|
            {
                &&& #[trigger] chain_model::written_to(setup, h, e, b2, last, p)
                &&& incremental::hc_end(d2, h, p)
            };
        uniqueness::law_chain_state_once(
            setup,
            h,
            e,
            b1,
            last,
            p,
            q,
            d1.codes.lens_litlen@,
            d1.codes.lens_offset@,
            d2.codes.lens_litlen@,
            d2.codes.lens_offset@,
        );
    }
    uniqueness::lemma_bits_once(x, y);
}

/// Two compressors at the same place do the same with the same data and outputs of the same
/// size, unless one of them is stopped: both run out of room, or both return the same number
/// and write the same bytes. Then they are at the same place again, so this goes on. A
/// restored compressor goes on as the one that the snapshot was taken of, and one that was
/// reset goes on as a new one.
pub proof fn law_same_place_same_result(
    c1: Compressor,
    c2: Compressor,
    d1: Compressor,
    d2: Compressor,
    h: Seq<u8>,
    last: bool,
    room: int,
    r1: Result<usize, CompressionError>,
    r2: Result<usize, CompressionError>,
    x: Seq<u8>,
    y: Seq<u8>,
)
    requires
        c1.wf(),
        c2.wf(),
        d1.wf(),
        d2.wf(),
        same_place(c1, c2),
        c1.incremental_pos < h.len() || (c1.incremental_pos == h.len() && last),
        incremental::piece_result(c1, d1, h, last, room, r1, x),
        incremental::piece_result(c2, d2, h, last, room, r2, y),
        !(r1 is Err && r1->Err_0 is Stopped),
        !(r2 is Err && r2->Err_0 is Stopped),
    ensures
        r1 == r2,
        r1 is Ok ==> x == y,
        c1.incremental_pos < h.len() ==> same_place(d1, d2),
        c1.incremental_pos < h.len() && r1 is Ok ==> same_codes(d1, d2),
{
    let e = Seq::<bool>::empty();
    stored::lemma_with_stored_len(e, Seq::empty(), true);
    if r1 is Ok && r2 is Ok {
        if c1.incremental_pos < h.len() {
            law_same_place_same_bytes(c1, c2, d1, d2, x, y, h, last);
        } else {
            uniqueness::lemma_bits_once(x, y);
        }
    } else if r1 is Ok {
        if c1.incremental_pos < h.len() {
            lemma_piece_fits(c1, c2, d1, x, h, last, room);
        }
    } else if r2 is Ok {
        if c1.incremental_pos < h.len() {
            lemma_piece_fits(c2, c1, d2, y, h, last, room);
        }
    } else if incremental::incremental_strategy(c1.level.strategy) && c1.incremental_pos < h.len() {
        let b = d1.incremental_base_offset as int;
        if d1.hc_mf is Some {
            assert(d1.hc_mf->0.tabs(b) == d2.hc_mf->0.tabs(b));
        }
    }
}

/// What one of them has written fits for the other, too.
proof fn lemma_piece_fits(
    c1: Compressor,
    c2: Compressor,
    d: Compressor,
    x: Seq<u8>,
    h: Seq<u8>,
    last: bool,
    room: int,
)
    requires
        c1.wf(),
        c2.wf(),
        same_place(c1, c2),
        incremental::incremental_strategy(c1.level.strategy),
        c1.incremental_pos <= h.len(),
        incremental::holds_piece(c1, d, x, h, last),
        x.len() <= room,
    ensures
        !incremental::piece_spills(c2, h, Seq::empty(), last, room),
{
    reveal(incremental::piece_spills);
    let e = Seq::<bool>::empty();
    let b = choose|b: Seq<bool>|
        {
            &&& #[trigger] incremental::moved_on(c1, d, h, e, b, last)
            &&& bits::to_bits(x) == pack::padded(b)
        };
    assert(bits::to_bits(x).len() == 8 * x.len());
    assert(!block::too_long(b, room));
    assert(c1.params == c2.params);
    if c1.level.strategy == InternalStrategy::HtGreedy {
        let setup = incremental::ht_setup(c1);
        assert(setup == incremental::ht_setup(c2));
        assert(fastest::fast_coded::<HtMatchfinder>(setup, h, e, b, last));
        if fastest::spills::<HtMatchfinder>(setup, h, e, last, room) {
            uniqueness::lemma_fast_spills::<HtMatchfinder>(setup, h, e, b, last, room);
        }
    } else {
        let look = incremental::incremental_look(c1.level.strategy);
        let setup = incremental::hc_setup(c1, look);
        assert(setup == incremental::hc_setup(c2, look));
        if chain_model::spills(setup, h, e, last, room) {
            uniqueness::lemma_chain_spills(setup, h, e, b, last, room);
        }
    }
}

/// With the same codes, cost estimates go by the same lengths.
pub proof fn law_same_codes_same_lengths(c1: Compressor, c2: Compressor)
    requires
        c1.wf(),
        c2.wf(),
        same_codes(c1, c2),
    ensures
        c1.estimate_codes().lens_litlen@ == c2.estimate_codes().lens_litlen@,
        c1.estimate_codes().lens_offset@ == c2.estimate_codes().lens_offset@,
{
    assert(c1.static_codes.lens_litlen@ =~= c2.static_codes.lens_litlen@);
    assert(c1.static_codes.lens_offset@ =~= c2.static_codes.lens_offset@);
}

/// Two compressors at the same place find the same cost for the same data, if they go by
/// the same codes, and are then at the same place again.
pub proof fn law_same_place_same_cost(
    c1: Compressor,
    c2: Compressor,
    d1: Compressor,
    d2: Compressor,
    h: Seq<u8>,
    ll: Seq<u8>,
    ol: Seq<u8>,
    x: int,
    y: int,
)
    requires
        c1.wf(),
        c2.wf(),
        d1.wf(),
        d2.wf(),
        same_place(c1, c2),
        incremental::incremental_strategy(c1.level.strategy),
        d1.level == c1.level,
        d2.level == c2.level,
        d1.incremental_pos == h.len(),
        d2.incremental_pos == h.len(),
        incremental::passed_at(c1, d1, h, ll, ol, x),
        incremental::passed_at(c2, d2, h, ll, ol, y),
    ensures
        x == y,
        same_place(d1, d2),
{
    assert(c1.params == c2.params);
    if c1.level.strategy == InternalStrategy::HtGreedy {
        let c = incremental::ht_setup(c1);
        assert(c == incremental::ht_setup(c2));
        let j = choose|k: nat|
            {
                let run = fastest::after_blocks::<HtMatchfinder>(c, h, k);
                &&& #[trigger] fastest::blocks_cost::<HtMatchfinder>(c, h, ll, ol, k) == x
                &&& run.next == h.len()
                &&& run.memory.tab == d1.ht_mf->0.table()
                &&& run.memory.base == d1.incremental_base_offset
                &&& forall|i: nat|
                    i < k ==> (#[trigger] fastest::after_blocks::<HtMatchfinder>(c, h, i)).next
                        < h.len()
            };
        let k = choose|k: nat|
            {
                let run = fastest::after_blocks::<HtMatchfinder>(c, h, k);
                &&& #[trigger] fastest::blocks_cost::<HtMatchfinder>(c, h, ll, ol, k) == y
                &&& run.next == h.len()
                &&& run.memory.tab == d2.ht_mf->0.table()
                &&& run.memory.base == d2.incremental_base_offset
                &&& forall|i: nat|
                    i < k ==> (#[trigger] fastest::after_blocks::<HtMatchfinder>(c, h, i)).next
                        < h.len()
            };
        assert(fastest::after_blocks::<HtMatchfinder>(c, h, j).next == h.len());
        assert(fastest::after_blocks::<HtMatchfinder>(c, h, k).next == h.len());
        assert(j == k);
    } else {
        let look = incremental::incremental_look(c1.level.strategy);
        let c = incremental::hc_setup(c1, look);
        assert(c == incremental::hc_setup(c2, look));
        let j = choose|k: nat|
            {
                &&& #[trigger] chain_model::pass_cost(c, h, ll, ol, k) == x
                &&& incremental::hc_end(d1, h, chain_model::after_passes(c, h, k).place)
                &&& forall|i: nat|
                    i < k ==> (#[trigger] chain_model::after_passes(c, h, i)).place.next < h.len()
            };
        let k = choose|k: nat|
            {
                &&& #[trigger] chain_model::pass_cost(c, h, ll, ol, k) == y
                &&& incremental::hc_end(d2, h, chain_model::after_passes(c, h, k).place)
                &&& forall|i: nat|
                    i < k ==> (#[trigger] chain_model::after_passes(c, h, i)).place.next < h.len()
            };
        assert(chain_model::after_passes(c, h, j).place.next == h.len());
        assert(chain_model::after_passes(c, h, k).place.next == h.len());
        assert(j == k);
    }
}

} // verus!
