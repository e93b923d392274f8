//! The rounds of full-optimal parsing.
//!
//! Each round weighs the literals and matches by the symbols of an earlier round. What
//! comes next is decided here: which symbols to weigh by, when to try others at random,
//! and when to stop.

use crate::compress::block::{DeflateCodes, DeflateFreqs};
use crate::compress::huffman;
use crate::compress::huffman::make_huffman_code;
use crate::compress::huffman_model;
use vstd::arithmetic::power2::lemma2_to64;
use vstd::prelude::*;

verus! {

/// State of the random number generator.
#[derive(Clone, Copy)]
pub struct RanState {
    pub m_w: u32,
    pub m_z: u32,
}

/// A step of multiply-with-carry.
pub open spec fn carry(x: int, m: int) -> int {
    m * (x % 65536) + x / 65536
}

/// The random number that a state gives.
pub open spec fn random_of(w: int, z: int) -> int {
    ((carry(z, 36969) % 65536) * 65536 + carry(w, 18000)) % 0x1_0000_0000
}

impl RanState {
    /// The state for a block of `blocksize` bytes.
    pub fn for_block(blocksize: usize) -> (r: Self)
        ensures
            r.m_w == (blocksize as u32 * 0x9E37_79B9 + 1) % 0x1_0000_0000,
            r.m_z == (blocksize as u32 * 0x9E37_79B9 + 2) % 0x1_0000_0000,
    {
        let n: u64 = (#[verifier::truncate] (blocksize as u32)) as u64;
        assert(0 <= n * 0x9E37_79B9 <= 0xffff_ffff * 0x9E37_79B9) by (nonlinear_arith)
            requires
                n <= 0xffff_ffff,
        ;
        let x: u64 = n * 0x9E37_79B9;
        RanState { m_w: ((x + 1) % 0x1_0000_0000) as u32, m_z: ((x + 2) % 0x1_0000_0000) as u32 }
    }

    /// The next random number (Marsaglia's multiply-with-carry).
    pub fn random_marsaglia(&mut self) -> (r: u32)
        ensures
            final(self).m_z == carry(old(self).m_z as int, 36969),
            final(self).m_w == carry(old(self).m_w as int, 18000),
            r == random_of(old(self).m_w as int, old(self).m_z as int),
    {
        self.m_z = 36969 * (self.m_z % 65536) + self.m_z / 65536;
        self.m_w = 18000 * (self.m_w % 65536) + self.m_w / 65536;
        let high: u64 = (self.m_z % 65536) as u64 * 65536;
        ((high + self.m_w as u64) % 0x1_0000_0000) as u32
    }
}

/// Counters of the symbols and a random state, after the first `i` counters have been
/// shuffled: a third of them take the value of another one.
pub open spec fn shuffled(f: Seq<u64>, w: int, z: int, i: int) -> (Seq<u64>, int, int)
    decreases i,
{
    if i <= 0 {
        (f, w, z)
    } else {
        let (g, w0, z0) = shuffled(f, w, z, i - 1);
        let w1 = carry(w0, 18000);
        let z1 = carry(z0, 36969);
        if (random_of(w0, z0) / 16) % 3 == 0 {
            (
                g.update(i - 1, g[random_of(w1, z1) % (f.len() as int)]),
                carry(w1, 18000),
                carry(z1, 36969),
            )
        } else {
            (g, w1, z1)
        }
    }
}

/// Give counters at random the values of others.
fn randomize_freqs(freqs: &mut Vec<u64>, state: &mut RanState)
    requires
        0 < old(freqs)@.len() < 0x1_0000_0000,
    ensures
        (final(freqs)@, final(state).m_w as int, final(state).m_z as int) == shuffled(
            old(freqs)@,
            old(state).m_w as int,
            old(state).m_z as int,
            old(freqs)@.len() as int,
        ),
{
    let n: usize = freqs.len();
    let ghost w = state.m_w as int;
    let ghost z = state.m_z as int;
    let mut i: usize = 0;
    while i < n
        invariant
            i <= n,
            0 < n < 0x1_0000_0000,
            n == old(freqs)@.len(),
            freqs@.len() == n,
            (freqs@, state.m_w as int, state.m_z as int) == shuffled(old(freqs)@, w, z, i as int),
        decreases n - i,
    {
        let r: u32 = state.random_marsaglia();
        if (r / 16) % 3 == 0 {
            let index: usize = state.random_marsaglia() as usize % n;
            let x: u64 = freqs[index];
            freqs.set(i, x);
        }
        i = i + 1;
    }
}

/// Counters of the symbols of a block.
pub struct SymbolStats {
    pub litlens: Vec<u64>,
    pub dists: Vec<u64>,
}

/// Counters of the symbols of a block, as sequences.
#[verifier::ext_equal]
pub struct StatsView {
    pub litlens: Seq<u64>,
    pub dists: Seq<u64>,
}

/// The greatest counter that can come about.
pub const MAX_COUNT: u64 = 0x2_0000_0000;

impl View for SymbolStats {
    type V = StatsView;

    open spec fn view(&self) -> StatsView {
        StatsView { litlens: self.litlens@, dists: self.dists@ }
    }
}

impl Clone for SymbolStats {
    fn clone(&self) -> (r: Self)
        ensures
            r@ == self@,
    {
        SymbolStats { litlens: self.litlens.clone(), dists: self.dists.clone() }
    }
}

impl StatsView {
    /// The counters of all symbols, none of them too large.
    pub open spec fn wf(self) -> bool {
        &&& self.litlens.len() == 288
        &&& self.dists.len() == 32
        &&& forall|s: int| 0 <= s < 288 ==> #[trigger] self.litlens[s] <= MAX_COUNT
        &&& forall|s: int| 0 <= s < 32 ==> #[trigger] self.dists[s] <= MAX_COUNT
    }

    /// All counters are zero.
    pub open spec fn zero() -> Self {
        StatsView {
            litlens: Seq::new(288, |s: int| 0u64),
            dists: Seq::new(32, |s: int| 0u64),
        }
    }

    /// The counters of a block with one end-of-block symbol.
    pub open spec fn of(freqs: DeflateFreqs) -> Self {
        StatsView {
            litlens: Seq::new(
                288,
                |s: int|
                    if s == 256 {
                        1
                    } else {
                        freqs.litlen@[s] as u64
                    },
            ),
            dists: Seq::new(32, |s: int| freqs.offset@[s] as u64),
        }
    }

    /// The counters and half of those of another block.
    pub open spec fn blended(self, other: Self) -> Self {
        StatsView {
            litlens: Seq::new(
                288,
                |s: int|
                    if s == 256 {
                        1
                    } else {
                        (self.litlens[s] + other.litlens[s] / 2) as u64
                    },
            ),
            dists: Seq::new(32, |s: int| (self.dists[s] + other.dists[s] / 2) as u64),
        }
    }

    /// The counters after shuffling, and the random state.
    pub open spec fn randomized(self, w: int, z: int) -> (Self, int, int) {
        let (ll, w1, z1) = shuffled(self.litlens, w, z, 288);
        let (ol, w2, z2) = shuffled(self.dists, w1, z1, 32);
        (StatsView { litlens: ll.update(256, 1), dists: ol }, w2, z2)
    }
}

/// Shuffling makes no counter larger than the largest.
proof fn lemma_shuffled(f: Seq<u64>, w: int, z: int, i: int)
    requires
        0 <= i <= f.len(),
        0 < f.len(),
        forall|s: int| 0 <= s < f.len() ==> #[trigger] f[s] <= MAX_COUNT,
    ensures
        shuffled(f, w, z, i).0.len() == f.len(),
        forall|s: int| 0 <= s < f.len() ==> #[trigger] shuffled(f, w, z, i).0[s] <= MAX_COUNT,
    decreases i,
{
    if i > 0 {
        lemma_shuffled(f, w, z, i - 1);
        let (g, w0, z0) = shuffled(f, w, z, i - 1);
        let k = random_of(carry(w0, 18000), carry(z0, 36969)) % (f.len() as int);
        assert(0 <= k < f.len());
        assert(g[k] <= MAX_COUNT);
    }
}

impl SymbolStats {
    /// All counters zero.
    pub fn new() -> (r: Self)
        ensures
            r@ == StatsView::zero(),
            r@.wf(),
    {
        let r = SymbolStats { litlens: vec![0u64; 288], dists: vec![0u64; 32] };
        proof {
            assert(r@ =~= StatsView::zero());
        }
        r
    }

    /// Take over the counters of a block.
    pub fn set_frequencies(&mut self, freqs: &DeflateFreqs)
        ensures
            final(self)@ == StatsView::of(*freqs),
            final(self)@.wf(),
    {
        let mut litlens: Vec<u64> = Vec::new();
        let mut dists: Vec<u64> = Vec::new();
        let mut i: usize = 0;
        while i < 288
            invariant
                i <= 288,
                litlens@.len() == i,
                forall|s: int|
                    0 <= s < i ==> #[trigger] litlens@[s] == if s == 256 {
                        1
                    } else {
                        freqs.litlen@[s] as u64
                    },
            decreases 288 - i,
        {
            litlens.push(
                if i == 256 {
                    1
                } else {
                    freqs.litlen[i] as u64
                },
            );
            i = i + 1;
        }
        i = 0;
        while i < 32
            invariant
                i <= 32,
                dists@.len() == i,
                forall|s: int| 0 <= s < i ==> #[trigger] dists@[s] == freqs.offset@[s] as u64,
            decreases 32 - i,
        {
            dists.push(freqs.offset[i] as u64);
            i = i + 1;
        }
        self.litlens = litlens;
        self.dists = dists;
        proof {
            assert(self@ =~= StatsView::of(*freqs));
        }
    }

    /// Shuffle the counters.
    pub fn randomize_stat_freqs(&mut self, state: &mut RanState)
        requires
            old(self)@.wf(),
        ensures
            (final(self)@, final(state).m_w as int, final(state).m_z as int) == old(self)@.randomized(old(state).m_w as int, old(state).m_z as int),
            final(self)@.wf(),
    {
        proof {
            let s = self@;
            let w = state.m_w as int;
            let z = state.m_z as int;
            lemma_shuffled(s.litlens, w, z, 288);
            let (ll, w1, z1) = shuffled(s.litlens, w, z, 288);
            lemma_shuffled(s.dists, w1, z1, 32);
        }
        randomize_freqs(&mut self.litlens, state);
        randomize_freqs(&mut self.dists, state);
        self.litlens.set(256, 1);
    }
}

/// The counters of one block and half of those of another.
pub fn add_weighed_stat_freqs(stats1: &SymbolStats, stats2: &SymbolStats) -> (r: SymbolStats)
    requires
        stats1@.wf(),
        stats2@.wf(),
        forall|s: int| 0 <= s < 288 ==> #[trigger] stats1@.litlens[s] <= 0x1_0000_0000,
        forall|s: int| 0 <= s < 32 ==> #[trigger] stats1@.dists[s] <= 0x1_0000_0000,
    ensures
        r@ == stats1@.blended(stats2@),
        r@.wf(),
{
    let mut litlens: Vec<u64> = Vec::new();
    let mut dists: Vec<u64> = Vec::new();
    let mut i: usize = 0;
    while i < 288
        invariant
            i <= 288,
            stats1@.wf(),
            stats2@.wf(),
            forall|s: int| 0 <= s < 288 ==> #[trigger] stats1@.litlens[s] <= 0x1_0000_0000,
            litlens@.len() == i,
            forall|s: int|
                0 <= s < i ==> #[trigger] litlens@[s] == if s == 256 {
                    1
                } else {
                    (stats1@.litlens[s] + stats2@.litlens[s] / 2) as u64
                },
            forall|s: int| 0 <= s < i ==> #[trigger] litlens@[s] <= MAX_COUNT,
        decreases 288 - i,
    {
        assert(stats1@.litlens[i as int] <= 0x1_0000_0000);
        assert(stats2@.litlens[i as int] <= MAX_COUNT);
        litlens.push(
            if i == 256 {
                1
            } else {
                stats1.litlens[i] + stats2.litlens[i] / 2
            },
        );
        i = i + 1;
    }
    i = 0;
    while i < 32
        invariant
            i <= 32,
            stats1@.wf(),
            stats2@.wf(),
            forall|s: int| 0 <= s < 32 ==> #[trigger] stats1@.dists[s] <= 0x1_0000_0000,
            dists@.len() == i,
            forall|s: int|
                0 <= s < i ==> #[trigger] dists@[s] == (stats1@.dists[s] + stats2@.dists[s]
                    / 2) as u64,
            forall|s: int| 0 <= s < i ==> #[trigger] dists@[s] <= MAX_COUNT,
        decreases 32 - i,
    {
        assert(stats1@.dists[i as int] <= 0x1_0000_0000);
        assert(stats2@.dists[i as int] <= MAX_COUNT);
        dists.push(stats1.dists[i] + stats2.dists[i] / 2);
        i = i + 1;
    }
    let r = SymbolStats { litlens, dists };
    proof {
        assert(r@ =~= stats1@.blended(stats2@));
    }
    r
}

/// The greatest frequency that codes are built from.
pub const MAX_FREQ: u64 = 0x3f_ffff;

/// The frequency that a counter stands for.
fn clamped(count: u64) -> (r: u32)
    ensures
        r == if count < MAX_FREQ {
            count
        } else {
            MAX_FREQ
        },
{
    if count < MAX_FREQ {
        count as u32
    } else {
        MAX_FREQ as u32
    }
}

/// The frequencies that counters stand for.
pub open spec fn clamped_counts(counts: Seq<u64>) -> Seq<u32> {
    Seq::new(
        counts.len(),
        |s: int|
            if counts[s] < MAX_FREQ {
                counts[s] as u32
            } else {
                MAX_FREQ as u32
            },
    )
}

/// Huffman codes for the counters, with codewords of at most 15 bits: each symbol that
/// occurs has a codeword.
pub fn calculate_huffman_costs(stats: &SymbolStats) -> (codes: DeflateCodes)
    requires
        stats@.wf(),
    ensures
        codes.wf(),
        huffman_model::lengths_for(clamped_counts(stats@.litlens), 15, codes.lens_litlen@),
        huffman_model::lengths_for(clamped_counts(stats@.dists), 15, codes.lens_offset@),
        forall|s: int|
            0 <= s < 288 && stats@.litlens[s] > 0 ==> #[trigger] codes.lens_litlen@[s] > 0,
        forall|s: int|
            0 <= s < 32 && stats@.dists[s] > 0 ==> #[trigger] codes.lens_offset@[s] > 0,
{
    let mut freqs: DeflateFreqs = DeflateFreqs::default();
    let mut codes: DeflateCodes = DeflateCodes::default();
    let ghost ll = clamped_counts(stats@.litlens);
    let ghost ol = clamped_counts(stats@.dists);
    let mut i: usize = 0;
    while i < 288
        invariant
            i <= 288,
            stats@.wf(),
            ll == clamped_counts(stats@.litlens),
            forall|s: int| 0 <= s < i ==> #[trigger] freqs.litlen@[s] == ll[s],
        decreases 288 - i,
    {
        freqs.litlen[i] = clamped(stats.litlens[i]);
        i = i + 1;
    }
    i = 0;
    while i < 32
        invariant
            i <= 32,
            stats@.wf(),
            ol == clamped_counts(stats@.dists),
            forall|s: int| 0 <= s < 288 ==> #[trigger] freqs.litlen@[s] == ll[s],
            forall|s: int| 0 <= s < i ==> #[trigger] freqs.offset@[s] == ol[s],
        decreases 32 - i,
    {
        freqs.offset[i] = clamped(stats.dists[i]);
        i = i + 1;
    }
    proof {
        assert(freqs.litlen@ =~= ll);
        assert(freqs.offset@ =~= ol);
        lemma2_to64();
        huffman::lemma_used_bound(freqs.litlen@, 288);
        huffman::lemma_used_bound(freqs.offset@, 32);
    }
    make_huffman_code(288, 15, &freqs.litlen, &mut codes.lens_litlen, &mut codes.codewords_litlen);
    make_huffman_code(32, 15, &freqs.offset, &mut codes.lens_offset, &mut codes.codewords_offset);
    codes
}

/// What a round is weighed by.
#[derive(Debug, Clone, Copy, PartialEq, Eq, Structural)]
pub enum Weights {
    /// The entropy of the current counters.
    Entropy,
    /// The code lengths for the best counters.
    CodeLengths,
}

/// What comes after a round.
#[derive(Debug, Clone, Copy, PartialEq, Eq, Structural)]
pub enum Next {
    /// Another round.
    Continue,
    /// One last round, weighed by the code lengths for the best counters.
    Refine,
    /// Nothing.
    Done,
}

/// Where the rounds stand.
pub struct Squeeze {
    pub iterations: u64,
    pub current_iteration: u64,
    pub bestcost: u64,
    pub lastcost: u64,
    pub stats: SymbolStats,
    pub beststats: SymbolStats,
    pub ran_state: RanState,
    /// Counters have been shuffled.
    pub randomized: bool,
    pub diversification_attempts: u64,
    /// The first counters that were better after shuffling.
    pub checkpoint: Option<SymbolStats>,
}

/// Where the rounds stand, as values.
#[verifier::ext_equal]
pub struct SqueezeView {
    pub iterations: int,
    pub current_iteration: int,
    pub bestcost: int,
    pub lastcost: int,
    pub stats: StatsView,
    pub beststats: StatsView,
    pub w: int,
    pub z: int,
    pub randomized: bool,
    pub attempts: int,
    pub checkpoint: Option<StatsView>,
}

impl View for Squeeze {
    type V = SqueezeView;

    open spec fn view(&self) -> SqueezeView {
        SqueezeView {
            iterations: self.iterations as int,
            current_iteration: self.current_iteration as int,
            bestcost: self.bestcost as int,
            lastcost: self.lastcost as int,
            stats: self.stats@,
            beststats: self.beststats@,
            w: self.ran_state.m_w as int,
            z: self.ran_state.m_z as int,
            randomized: self.randomized,
            attempts: self.diversification_attempts as int,
            checkpoint: match self.checkpoint {
                Some(c) => Some(c@),
                None => None,
            },
        }
    }
}

impl SqueezeView {
    /// The counters are of all symbols.
    pub open spec fn wf(self) -> bool {
        &&& self.stats.wf()
        &&& self.beststats.wf()
        &&& self.attempts <= 3
        &&& self.checkpoint matches Some(c) ==> c.wf()
    }

    /// The round with the cost has been the best one, or has not.
    pub open spec fn rated(self, cost: int) -> Self {
        if cost < self.bestcost {
            SqueezeView {
                beststats: self.stats,
                bestcost: cost,
                checkpoint: if self.randomized && self.checkpoint is None {
                    Some(self.stats)
                } else {
                    self.checkpoint
                },
                current_iteration: self.current_iteration + 1,
                ..self
            }
        } else {
            SqueezeView { current_iteration: self.current_iteration + 1, ..self }
        }
    }

    /// The next round is weighed by the symbols of this one; once counters have been
    /// shuffled, those of the one before count by half.
    pub open spec fn taken(self, freqs: DeflateFreqs) -> Self {
        SqueezeView {
            stats: if self.randomized {
                StatsView::of(freqs).blended(self.stats)
            } else {
                StatsView::of(freqs)
            },
            ..self
        }
    }

    /// Shuffle the best counters.
    pub open spec fn diversified(self) -> Self {
        let (s, w, z) = self.beststats.randomized(self.w, self.z);
        SqueezeView { stats: s, w, z, randomized: true, ..self }
    }

    /// What happens where the cost has not changed: three times the best counters are
    /// shuffled; then the checkpoint is gone back to, or where there is none the best
    /// counters are shuffled again.
    pub open spec fn unstuck(self) -> Self {
        if self.attempts < 3 {
            SqueezeView { attempts: self.attempts + 1, ..self.diversified() }
        } else if let Some(c) = self.checkpoint {
            SqueezeView { stats: c, checkpoint: None, ..self }
        } else {
            self.diversified()
        }
    }

    /// Where the rounds stand after one more.
    pub open spec fn stepped(self, cost: int, freqs: DeflateFreqs) -> Self {
        let a = self.rated(cost);
        if a.current_iteration >= a.iterations {
            a
        } else {
            let b = a.taken(freqs);
            let c = if b.current_iteration > 5 && cost == b.lastcost {
                b.unstuck()
            } else {
                b
            };
            SqueezeView { lastcost: cost, ..c }
        }
    }

    /// What comes after a round.
    pub open spec fn next(self) -> Next {
        if self.current_iteration + 1 < self.iterations {
            Next::Continue
        } else if self.current_iteration + 1 > 4 {
            Next::Refine
        } else {
            Next::Done
        }
    }
}

impl Squeeze {
    /// Before the first round: weighed by the symbols of a first parse, which costs
    /// `cost` bits.
    pub fn new(blocksize: usize, iterations: u64, freqs: &DeflateFreqs, cost: u64) -> (r: Self)
        ensures
            r@.wf(),
            r@.stats == StatsView::of(*freqs),
            r@.beststats == StatsView::zero(),
            r@.bestcost == cost,
            r@.lastcost == 0,
            r@.iterations == iterations,
            r@.current_iteration == 0,
            r@.attempts == 0,
            !r@.randomized,
            r@.checkpoint is None,
            r@.w == (blocksize as u32 * 0x9E37_79B9 + 1) % 0x1_0000_0000,
            r@.z == (blocksize as u32 * 0x9E37_79B9 + 2) % 0x1_0000_0000,
    {
        let mut stats: SymbolStats = SymbolStats::new();
        stats.set_frequencies(freqs);
        Squeeze {
            iterations,
            current_iteration: 0,
            bestcost: cost,
            lastcost: 0,
            stats,
            beststats: SymbolStats::new(),
            ran_state: RanState::for_block(blocksize),
            randomized: false,
            diversification_attempts: 0,
            checkpoint: None,
        }
    }

    /// What the next round is weighed by: one round, the thirtieth, by code lengths.
    pub fn weights(&self) -> (r: Weights)
        ensures
            r == if self@.current_iteration == 29 {
                Weights::CodeLengths
            } else {
                Weights::Entropy
            },
    {
        if self.current_iteration == 29 {
            Weights::CodeLengths
        } else {
            Weights::Entropy
        }
    }

    /// Whether a parse of this cost is better than all before.
    pub fn improves(&self, cost: u64) -> (r: bool)
        ensures
            r == (cost < self@.bestcost),
    {
        cost < self.bestcost
    }

    /// Shuffle the best counters.
    fn diversify(&mut self)
        requires
            old(self)@.wf(),
        ensures
            final(self)@ == old(self)@.diversified(),
            final(self)@.wf(),
    {
        let ghost o = self@;
        let mut stats: SymbolStats = self.beststats.clone();
        stats.randomize_stat_freqs(&mut self.ran_state);
        self.stats = stats;
        self.randomized = true;
        proof {
            assert(self@ =~= o.diversified());
        }
    }

    /// Take note of a round: its cost and its symbols.
    pub fn step(&mut self, cost: u64, freqs: &DeflateFreqs) -> (r: Next)
        requires
            old(self)@.wf(),
            old(self)@.current_iteration < u64::MAX,
        ensures
            final(self)@.wf(),
            final(self)@ == old(self)@.stepped(cost as int, *freqs),
            r == old(self)@.next(),
    {
        let ghost o = self@;
        if cost < self.bestcost {
            self.beststats = self.stats.clone();
            self.bestcost = cost;
            if self.randomized && self.checkpoint.is_none() {
                self.checkpoint = Some(self.stats.clone());
            }
        }
        self.current_iteration = self.current_iteration + 1;
        proof {
            assert(self@ =~= o.rated(cost as int));
        }
        if self.current_iteration >= self.iterations {
            return if self.current_iteration > 4 {
                Next::Refine
            } else {
                Next::Done
            };
        }
        let ghost a = self@;
        let mut stats: SymbolStats = SymbolStats::new();
        stats.set_frequencies(freqs);
        if self.randomized {
            proof {
                assert forall|s: int| 0 <= s < 288 implies #[trigger] stats@.litlens[s] <= 0x1_0000_0000 by {}
                assert forall|s: int| 0 <= s < 32 implies #[trigger] stats@.dists[s] <= 0x1_0000_0000 by {}
            }
            stats = add_weighed_stat_freqs(&stats, &self.stats);
        }
        self.stats = stats;
        proof {
            assert(self@ =~= a.taken(*freqs));
        }
        let ghost b = self@;
        if self.current_iteration > 5 && cost == self.lastcost {
            if self.diversification_attempts < 3 {
                self.diversify();
                self.diversification_attempts = self.diversification_attempts + 1;
            } else {
                let checkpoint: Option<SymbolStats> = self.checkpoint.take();
                match checkpoint {
                    Some(c) => {
                        self.stats = c;
                    },
                    None => {
                        self.diversify();
                    },
                }
            }
            proof {
                assert(self@ =~= b.unstuck());
            }
        }
        self.lastcost = cost;
        Next::Continue
    }
}

/// Full-optimal state.
#[derive(Clone, Copy)]
pub struct FullOptimalState {
    iterations: u64,
}

impl FullOptimalState {
    /// How many rounds there are at most.
    pub closed spec fn rounds(&self) -> u64 {
        self.iterations
    }

    /// A state for a number of rounds.
    pub fn new(iterations: u64) -> (r: Self)
        ensures
            r.rounds() == iterations,
    {
        FullOptimalState { iterations }
    }

    /// How many rounds there are at most.
    pub fn iterations(&self) -> (r: u64)
        ensures
            r == self.rounds(),
    {
        self.iterations
    }
}

/// Where the rounds stand after rounds of these costs and symbols.
pub open spec fn after_rounds(s: SqueezeView, rounds: Seq<(int, DeflateFreqs)>) -> SqueezeView
    decreases rounds.len(),
{
    if rounds.len() == 0 {
        s
    } else {
        after_rounds(s, rounds.drop_last()).stepped(rounds.last().0, rounds.last().1)
    }
}

/// The best cost is the least of all costs seen, and the first one before them; the counters
/// kept with it are those that the round with that cost was weighed by.
pub proof fn law_best_round_is_kept(s: SqueezeView, rounds: Seq<(int, DeflateFreqs)>)
    ensures
        ({
            let e = after_rounds(s, rounds);
            &&& e.bestcost <= s.bestcost
            &&& forall|k: int| 0 <= k < rounds.len() ==> e.bestcost <= (#[trigger] rounds[k]).0
            &&& (e.bestcost == s.bestcost && e.beststats == s.beststats) || exists|k: int|
                0 <= k < rounds.len() && e.bestcost == rounds[k].0 && e.beststats
                    == #[trigger] after_rounds(s, rounds.take(k)).stats
        }),
    decreases rounds.len(),
{
    if rounds.len() > 0 {
        let r = rounds.drop_last();
        let m = after_rounds(s, r);
        let e = after_rounds(s, rounds);
        law_best_round_is_kept(s, r);
        assert forall|k: int| 0 <= k < rounds.len() implies e.bestcost <= (#[trigger] rounds[k]).0 by {
            if k < r.len() {
                assert(r[k] == rounds[k]);
            }
        }
        if rounds.last().0 < m.bestcost {
            assert(rounds.take(rounds.len() - 1) =~= r);
            assert(e.beststats == after_rounds(s, rounds.take(rounds.len() - 1)).stats);
        } else if !(m.bestcost == s.bestcost && m.beststats == s.beststats) {
            let k = choose|k: int|
                0 <= k < r.len() && m.bestcost == r[k].0 && m.beststats == #[trigger] after_rounds(
                    s,
                    r.take(k),
                ).stats;
            assert(rounds.take(k) =~= r.take(k));
            assert(e.beststats == after_rounds(s, rounds.take(k)).stats);
        }
    }
}

/// Each round is counted, and there is another one as long as fewer than the agreed number
/// are done.
pub proof fn law_rounds_are_counted(s: SqueezeView, rounds: Seq<(int, DeflateFreqs)>)
    ensures
        after_rounds(s, rounds).current_iteration == s.current_iteration + rounds.len(),
        after_rounds(s, rounds).iterations == s.iterations,
        rounds.len() > 0 ==> (after_rounds(s, rounds.drop_last()).next() is Continue
            <==> s.current_iteration + rounds.len() < s.iterations),
    decreases rounds.len(),
{
    if rounds.len() > 0 {
        law_rounds_are_counted(s, rounds.drop_last());
    }
}

/// Shuffling counters makes no new values: each was that of some counter before.
pub proof fn law_shuffle_draws(f: Seq<u64>, w: int, z: int, i: int, k: int)
    requires
        0 <= i <= f.len(),
        0 <= k < f.len(),
    ensures
        shuffled(f, w, z, i).0.len() == f.len(),
        f.contains(shuffled(f, w, z, i).0[k]),
        k >= i ==> shuffled(f, w, z, i).0[k] == f[k],
    decreases i,
{
    if i > 0 {
        law_shuffle_draws(f, w, z, i - 1, k);
        let (g, w0, z0) = shuffled(f, w, z, i - 1);
        let j = random_of(carry(w0, 18000), carry(z0, 36969)) % (f.len() as int);
        law_shuffle_draws(f, w, z, i - 1, j);
    }
}

} // verus!
