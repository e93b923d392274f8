//! Block splitting statistics for DEFLATE compression.
//!
//! Uses 10 observation categories (8 literal types + 2 match types) to detect
//! when the data distribution changes enough to warrant starting a new block.

use crate::compress::progress::MIN_BLOCK_LENGTH;
use vstd::prelude::*;

verus! {

/// Total number of observation types: eight of literals (top 2 bits and low 1 bit
/// of the literal), then short and long matches.
pub const NUM_OBSERVATION_TYPES: usize = 10;

/// Number of observations between block-end checks.
pub const NUM_OBSERVATIONS_PER_BLOCK_CHECK: u32 = 512;

/// Block split statistics.
#[derive(Clone, Copy)]
pub struct BlockSplitStats {
    /// Observations of each type since the last check.
    pub new_observations: [u32; 10],
    /// Observations of each type before the last check.
    pub observations: [u32; 10],
    /// Number of observations since the last check.
    pub num_new_observations: u32,
    /// Number of observations before the last check.
    pub num_observations: u32,
}

/// The type of a literal.
pub open spec fn literal_type(lit: u8) -> int {
    lit as int / 64 * 2 + lit as int % 2
}

/// The type of a match.
pub open spec fn match_type(length: int) -> int {
    if length >= 9 {
        9
    } else {
        8
    }
}

/// The distance of two numbers.
pub open spec fn gap(a: int, b: int) -> int {
    if a <= b {
        b - a
    } else {
        a - b
    }
}

/// Observations of each type and in all, since the last check and before it.
#[verifier::ext_equal]
pub struct Observed {
    pub recent: Seq<int>,
    pub before: Seq<int>,
    pub num_recent: int,
    pub num_before: int,
}

/// Nothing has been observed.
pub open spec fn nothing() -> Observed {
    let none = Seq::new(10, |i: int| 0int);
    Observed { recent: none, before: none, num_recent: 0, num_before: 0 }
}

/// One more observation.
pub open spec fn seen(o: Observed, kind: int) -> Observed {
    Observed {
        recent: o.recent.update(kind, o.recent[kind] + 1),
        num_recent: o.num_recent + 1,
        ..o
    }
}

/// The recent observations count with those before them.
pub open spec fn merged(o: Observed) -> Observed {
    Observed {
        recent: Seq::new(10, |i: int| 0int),
        before: Seq::new(10, |i: int| o.before[i] + o.recent[i]),
        num_recent: 0,
        num_before: o.num_before + o.num_recent,
    }
}

/// How far the first `n` types of the recent observations are from what the earlier
/// ones would have them be.
pub open spec fn delta(o: Observed, n: nat) -> int
    decreases n,
{
    if n == 0 {
        0
    } else {
        delta(o, (n - 1) as nat) + gap(
            o.recent[n - 1] * o.num_before,
            o.before[n - 1] * o.num_recent,
        )
    }
}

/// The evidence that ends a block.
pub open spec fn cutoff(o: Observed, block_length: int) -> int {
    let c = o.num_recent * 200 / 512 * o.num_before;
    let items = o.num_before + o.num_recent;
    if block_length < 10000 && items < 8192 {
        c + c * (8192 - items) / 8192
    } else {
        c
    }
}

/// The recent observations differ enough from the earlier ones, if there are any, to
/// end a block of this length.
pub open spec fn differs(o: Observed, block_length: int) -> bool {
    o.num_before > 0 && delta(o, 10) + block_length / 4096 * o.num_before >= cutoff(
        o,
        block_length,
    )
}

/// There are enough observations, and the block and what follows it are long enough, to
/// consider ending it.
pub open spec fn is_ready(o: Observed, in_block_begin: int, in_next: int, in_end: int) -> bool {
    o.num_recent >= 512 && in_next - in_block_begin >= 5000 && in_end - in_next >= 5000
}

impl BlockSplitStats {
    /// The number of observations.
    pub open spec fn total(&self) -> int {
        self.num_observations + self.num_new_observations
    }

    /// No type is observed more often than there are observations.
    pub open spec fn wf(&self) -> bool {
        &&& forall|i: int|
            0 <= i < 10 ==> #[trigger] self.new_observations@[i] <= self.num_new_observations
        &&& forall|i: int| 0 <= i < 10 ==> #[trigger] self.observations@[i] <= self.num_observations
    }

    /// The observations.
    pub open spec fn observed(&self) -> Observed {
        Observed {
            recent: Seq::new(10, |i: int| self.new_observations@[i] as int),
            before: Seq::new(10, |i: int| self.observations@[i] as int),
            num_recent: self.num_new_observations as int,
            num_before: self.num_observations as int,
        }
    }

    /// There are no observations.
    pub open spec fn zero(&self) -> bool {
        &&& self.wf()
        &&& self.total() == 0
    }

    /// Initialize stats for a new block.
    pub fn new() -> (r: Self)
        ensures
            r.zero(),
            r.observed() == nothing(),
    {
        let r: BlockSplitStats = BlockSplitStats {
            new_observations: [0u32; 10],
            observations: [0u32; 10],
            num_new_observations: 0,
            num_observations: 0,
        };
        assert(r.observed() =~= nothing());
        r
    }

    /// Record a literal observation.
    #[inline]
    pub fn observe_literal(&mut self, lit: u8)
        requires
            old(self).wf(),
            old(self).num_new_observations < u32::MAX,
        ensures
            final(self).wf(),
            final(self).num_new_observations == old(self).num_new_observations + 1,
            final(self).num_observations == old(self).num_observations,
            final(self).observations@ == old(self).observations@,
            final(self).new_observations@ == old(self).new_observations@.update(
                literal_type(lit),
                (old(self).new_observations@[literal_type(lit)] + 1) as u32,
            ),
            final(self).observed() == seen(old(self).observed(), literal_type(lit)),
    {
        let k: usize = lit as usize / 64 * 2 + lit as usize % 2;
        assert(self.new_observations@[k as int] <= self.num_new_observations);
        self.new_observations[k] = self.new_observations[k] + 1;
        self.num_new_observations = self.num_new_observations + 1;
        assert(self.observed() =~= seen(old(self).observed(), literal_type(lit)));
    }

    /// Record a match observation.
    #[inline]
    pub fn observe_match(&mut self, length: u32)
        requires
            old(self).wf(),
            old(self).num_new_observations < u32::MAX,
        ensures
            final(self).wf(),
            final(self).num_new_observations == old(self).num_new_observations + 1,
            final(self).num_observations == old(self).num_observations,
            final(self).observations@ == old(self).observations@,
            final(self).new_observations@ == old(self).new_observations@.update(
                match_type(length as int),
                (old(self).new_observations@[match_type(length as int)] + 1) as u32,
            ),
            final(self).observed() == seen(old(self).observed(), match_type(length as int)),
    {
        let k: usize = if length >= 9 {
            9
        } else {
            8
        };
        assert(self.new_observations@[k as int] <= self.num_new_observations);
        self.new_observations[k] = self.new_observations[k] + 1;
        self.num_new_observations = self.num_new_observations + 1;
        assert(self.observed() =~= seen(old(self).observed(), match_type(length as int)));
    }

    /// Merge new observations into the accumulated totals.
    pub fn merge_new_observations(&mut self)
        requires
            old(self).wf(),
            old(self).total() <= u32::MAX,
        ensures
            final(self).wf(),
            final(self).num_new_observations == 0,
            final(self).num_observations == old(self).total(),
            forall|i: int|
                0 <= i < 10 ==> #[trigger] final(self).observations@[i] == old(self).observations@[i]
                    + old(self).new_observations@[i],
            forall|i: int| 0 <= i < 10 ==> #[trigger] final(self).new_observations@[i] == 0,
            final(self).observed() == merged(old(self).observed()),
    {
        let ghost s0 = *self;
        let mut i: usize = 0;
        while i < 10
            invariant
                i <= 10,
                s0 == *old(self),
                s0.wf(),
                s0.total() <= u32::MAX,
                self.num_new_observations == s0.num_new_observations,
                self.num_observations == s0.num_observations,
                forall|j: int|
                    0 <= j < i ==> #[trigger] self.observations@[j] == s0.observations@[j]
                        + s0.new_observations@[j],
                forall|j: int| 0 <= j < i ==> #[trigger] self.new_observations@[j] == 0,
                forall|j: int| i <= j < 10 ==> #[trigger] self.observations@[j] == s0.observations@[j],
                forall|j: int|
                    i <= j < 10 ==> #[trigger] self.new_observations@[j] == s0.new_observations@[j],
            decreases 10 - i,
        {
            assert(s0.observations@[i as int] <= s0.num_observations);
            assert(s0.new_observations@[i as int] <= s0.num_new_observations);
            assert(self.observations@[i as int] == s0.observations@[i as int]);
            assert(self.new_observations@[i as int] == s0.new_observations@[i as int]);
            self.observations[i] = self.observations[i] + self.new_observations[i];
            self.new_observations[i] = 0;
            i = i + 1;
        }
        self.num_observations = self.num_observations + self.num_new_observations;
        self.num_new_observations = 0;
        proof {
            assert forall|j: int| 0 <= j < 10 implies #[trigger] self.observations@[j]
                <= self.num_observations by {
                assert(s0.observations@[j] <= s0.num_observations);
                assert(s0.new_observations@[j] <= s0.num_new_observations);
            }
            assert(self.observed() =~= merged(s0.observed()));
        }
    }

    /// Check whether we have enough observations and enough block length to
    /// consider ending.
    pub fn ready_to_check(&self, in_block_begin: usize, in_next: usize, in_end: usize) -> (r: bool)
        requires
            in_block_begin <= in_next <= in_end,
        ensures
            r == is_ready(
                self.observed(),
                in_block_begin as int,
                in_next as int,
                in_end as int,
            ),
    {
        self.num_new_observations >= NUM_OBSERVATIONS_PER_BLOCK_CHECK && in_next - in_block_begin
            >= MIN_BLOCK_LENGTH && in_end - in_next >= MIN_BLOCK_LENGTH
    }

    /// Check if the block should be ended at the current position.
    ///
    /// Returns true if the distribution of recent observations differs
    /// enough from the accumulated distribution to warrant a new block.
    pub fn should_end_block(
        &mut self,
        in_block_begin: usize,
        in_next: usize,
        in_end: usize,
    ) -> (r: bool)
        requires
            old(self).wf(),
            old(self).total() <= u32::MAX,
            in_block_begin <= in_next <= in_end,
            in_next - in_block_begin <= u32::MAX,
        ensures
            final(self).wf(),
            final(self).total() == old(self).total(),
            ({
                let o = old(self).observed();
                let ready = is_ready(o, in_block_begin as int, in_next as int, in_end as int);
                let ends = differs(o, in_next - in_block_begin);
                &&& r == (ready && ends)
                &&& final(self).observed() == if ready && !ends {
                    merged(o)
                } else {
                    o
                }
            }),
            r ==> *final(self) == *old(self),
    {
        if !self.ready_to_check(in_block_begin, in_next, in_end) {
            return false;
        }
        self.do_end_block_check((in_next - in_block_begin) as u32)
    }

    /// Core block-end check: compare old vs new observation distributions. Where
    /// they do not differ enough, the new observations are merged into the old.
    pub fn do_end_block_check(&mut self, block_length: u32) -> (r: bool)
        requires
            old(self).wf(),
            old(self).total() <= u32::MAX,
        ensures
            final(self).wf(),
            final(self).total() == old(self).total(),
            r == differs(old(self).observed(), block_length as int),
            r ==> *final(self) == *old(self),
            !r ==> final(self).num_new_observations == 0 && forall|i: int|
                0 <= i < 10 ==> #[trigger] final(self).observations@[i] == old(self).observations@[i]
                    + old(self).new_observations@[i],
            !r ==> final(self).observed() == merged(old(self).observed()),
    {
        if self.num_observations > 0 {
            let mut total_delta: u128 = 0;
            let nn: u128 = self.num_new_observations as u128;
            let no: u128 = self.num_observations as u128;
            let mut i: usize = 0;
            while i < 10
                invariant
                    i <= 10,
                    self.wf(),
                    *self == *old(self),
                    nn == self.num_new_observations,
                    no == self.num_observations,
                    nn + no <= 0xffff_ffff,
                    total_delta == delta(self.observed(), i as nat),
                    total_delta <= i * 0x1_0000_0000_0000_0000,
                decreases 10 - i,
            {
                let a: u128 = self.new_observations[i] as u128;
                let b: u128 = self.observations[i] as u128;
                assert(self.new_observations@[i as int] <= nn);
                assert(self.observations@[i as int] <= no);
                assert(0 <= a * no <= 0x1_0000_0000_0000_0000) by (nonlinear_arith)
                    requires
                        0 <= a <= 0xffff_ffff,
                        0 <= no <= 0xffff_ffff,
                ;
                assert(0 <= b * nn <= 0x1_0000_0000_0000_0000) by (nonlinear_arith)
                    requires
                        0 <= b <= 0xffff_ffff,
                        0 <= nn <= 0xffff_ffff,
                ;
                let actual: u128 = a * no;
                let expected: u128 = b * nn;
                let d: u128 = if actual <= expected {
                    expected - actual
                } else {
                    actual - expected
                };
                total_delta = total_delta + d;
                i = i + 1;
            }
            let num_items: u128 = no + nn;
            let share: u128 = nn * 200 / 512;
            assert(0 <= share * no <= 0x1_0000_0000_0000_0000) by (nonlinear_arith)
                requires
                    0 <= share <= 0xffff_ffff,
                    0 <= no <= 0xffff_ffff,
            ;
            let mut cut: u128 = share * no;
            if block_length < 10000 && num_items < 8192 {
                let rest: u128 = 8192 - num_items;
                assert(0 <= cut * rest <= 0x1_0000_0000_0000_0000 * 8192) by (nonlinear_arith)
                    requires
                        0 <= cut <= 0x1_0000_0000_0000_0000,
                        0 <= rest <= 8192,
                ;
                cut = cut + cut * rest / 8192;
            }
            let f: u128 = block_length as u128 / 4096;
            assert(0 <= f * no <= 0x10_0000 * 0xffff_ffff) by (nonlinear_arith)
                requires
                    0 <= f <= 0x10_0000,
                    0 <= no <= 0xffff_ffff,
            ;
            if total_delta + f * no >= cut {
                return true;
            }
        }
        self.merge_new_observations();
        false
    }
}

/// The sum of the first `n` counts.
pub open spec fn sum_of(c: Seq<int>, n: nat) -> int
    decreases n,
{
    if n == 0 {
        0
    } else {
        sum_of(c, (n - 1) as nat) + c[n - 1]
    }
}

/// Counts that are in proportion are at no distance.
proof fn lemma_no_delta(o: Observed, n: nat)
    requires
        forall|i: int|
            0 <= i < n ==> (#[trigger] o.recent[i]) * o.num_before == o.before[i] * o.num_recent,
    ensures
        delta(o, n) == 0,
    decreases n,
{
    if n > 0 {
        lemma_no_delta(o, (n - 1) as nat);
        assert(o.recent[n - 1] * o.num_before == o.before[n - 1] * o.num_recent);
    }
}

/// Data that goes on as before is not split: where the recent observations are in proportion
/// to the earlier ones, no block of up to 800,000 bytes ends.
pub proof fn law_alike_goes_on(o: Observed, block_length: int)
    requires
        o.num_recent >= 512,
        o.num_before > 0,
        0 <= block_length < 800_000,
        forall|i: int|
            0 <= i < 10 ==> (#[trigger] o.recent[i]) * o.num_before == o.before[i] * o.num_recent,
    ensures
        !differs(o, block_length),
{
    lemma_no_delta(o, 10);
    let x = o.num_recent * 200 / 512;
    let b = o.num_before;
    let f = block_length / 4096;
    let c = x * b;
    assert(f < 200 && x >= 200);
    assert(f * b < x * b) by (nonlinear_arith)
        requires
            f < x,
            b > 0,
    ;
    let items = o.num_before + o.num_recent;
    if block_length < 10000 && items < 8192 {
        let d = 8192 - items;
        assert(c * d >= 0) by (nonlinear_arith)
            requires
                c >= 0,
                d >= 0,
        ;
        assert(c * d / 8192 >= 0);
    }
}

/// Counts that have no kind in common are as far apart as can be.
proof fn lemma_most_delta(o: Observed, n: nat)
    requires
        forall|i: int| 0 <= i < n ==> 0 <= #[trigger] o.recent[i] && 0 <= o.before[i],
        forall|i: int| 0 <= i < n ==> #[trigger] o.recent[i] == 0 || o.before[i] == 0,
        o.num_recent >= 0,
        o.num_before >= 0,
    ensures
        delta(o, n) == sum_of(o.recent, n) * o.num_before + sum_of(o.before, n) * o.num_recent,
    decreases n,
{
    let a = o.num_before;
    let b = o.num_recent;
    if n > 0 {
        lemma_most_delta(o, (n - 1) as nat);
        let x = o.recent[n - 1];
        let y = o.before[n - 1];
        let s = sum_of(o.recent, (n - 1) as nat);
        let t = sum_of(o.before, (n - 1) as nat);
        assert(gap(x * a, y * b) == x * a + y * b) by {
            assert(x * a >= 0) by (nonlinear_arith)
                requires
                    x >= 0,
                    a >= 0,
            ;
            assert(y * b >= 0) by (nonlinear_arith)
                requires
                    y >= 0,
                    b >= 0,
            ;
            assert(x == 0 ==> x * a == 0) by (nonlinear_arith);
            assert(y == 0 ==> y * b == 0) by (nonlinear_arith);
        }
        assert((s + x) * a == s * a + x * a) by (nonlinear_arith);
        assert((t + y) * b == t * b + y * b) by (nonlinear_arith);
    } else {
        assert(0 * a == 0 && 0 * b == 0);
    }
}

/// Data that changes is split: where no kind of observation is both recent and earlier, the
/// block ends, however long it is.
pub proof fn law_unlike_ends(o: Observed, block_length: int)
    requires
        o.num_recent >= 512,
        o.num_before > 0,
        0 <= block_length,
        sum_of(o.recent, 10) == o.num_recent,
        sum_of(o.before, 10) == o.num_before,
        forall|i: int| 0 <= i < 10 ==> 0 <= #[trigger] o.recent[i] && 0 <= o.before[i],
        forall|i: int| 0 <= i < 10 ==> #[trigger] o.recent[i] == 0 || o.before[i] == 0,
    ensures
        differs(o, block_length),
{
    lemma_most_delta(o, 10);
    let a = o.num_before;
    let r = o.num_recent;
    let x = r * 200 / 512;
    let c = x * a;
    assert(0 <= x <= r);
    assert(0 <= c <= r * a) by (nonlinear_arith)
        requires
            0 <= x <= r,
            a >= 0,
            c == x * a,
    ;
    assert(a * r == r * a) by (nonlinear_arith);
    let f = block_length / 4096;
    assert(f * a >= 0) by (nonlinear_arith)
        requires
            f >= 0,
            a >= 0,
    ;
    let items = a + r;
    if block_length < 10000 && items < 8192 {
        let d = 8192 - items;
        assert(c * d <= c * 8192) by (nonlinear_arith)
            requires
                c >= 0,
                d <= 8192,
        ;
        assert(c * d / 8192 <= c);
    }
}

/// A block may end only if it and what follows it have 5000 bytes, and at least 512 literals
/// and matches were observed since the last check.
pub proof fn law_ready_is_enough(o: Observed, begin: int, next: int, end: int)
    ensures
        is_ready(o, begin, next, end) <==> o.num_recent > 511 && begin + 5000 <= next && next + 5000
            <= end,
{
}

} // verus!
