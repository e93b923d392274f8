//! Packing the codeword lengths of a dynamic block with the precode.

use crate::arith::min_usize;
use crate::bits;
use crate::codes;
use crate::compress::cost_model;
use crate::compress::emit;
use crate::compress::huffman;
use crate::compress::huffman::make_huffman_code;
use crate::compress::huffman_model;
use crate::constants::DEFLATE_PRECODE_LENS_PERMUTATION;
use crate::stream;
use vstd::arithmetic::power2::*;
use vstd::prelude::*;

verus! {

/// Extra bits for each precode symbol.
pub const EXTRA_PRECODE_BITS: [u8; 19] = [
    0, 0, 0, 0, 0, 0, 0, 0, 0, 0, 0, 0, 0, 0, 0, 0, 2, 3, 7,
];

/// The symbol of a packed precode item.
pub open spec fn item_sym(it: u32) -> int {
    it as int % 32
}

/// The value of the extra bits of a packed precode item.
pub open spec fn item_extra(it: u32) -> int {
    it as int / 32
}

/// The lengths that an item stands for behind the lengths `o`.
pub open spec fn item_run(o: Seq<u8>, it: u32) -> Seq<u8> {
    let s = item_sym(it);
    let x = item_extra(it);
    if s < 16 {
        seq![s as u8]
    } else if s == 16 {
        stream::repeat(o.last(), 3 + x)
    } else if s == 17 {
        stream::repeat(0, 3 + x)
    } else {
        stream::repeat(0, 11 + x)
    }
}

/// The lengths that a sequence of items stands for.
pub open spec fn expand(its: Seq<u32>) -> Seq<u8>
    decreases its.len(),
{
    if its.len() == 0 {
        Seq::empty()
    } else {
        let o = expand(its.drop_last());
        o + item_run(o, its.last())
    }
}

/// Every item is a precode symbol with a value that its extra bits hold, and
/// none repeats a length where there is none.
pub open spec fn items_valid(its: Seq<u32>) -> bool
    decreases its.len(),
{
    if its.len() == 0 {
        true
    } else {
        let it = its.last();
        &&& items_valid(its.drop_last())
        &&& item_sym(it) < 19
        &&& item_extra(it) < pow2(EXTRA_PRECODE_BITS@[item_sym(it)] as nat)
        &&& item_sym(it) == 16 ==> expand(its.drop_last()).len() > 0
    }
}

/// How often symbol `s` occurs.
pub open spec fn sym_count(its: Seq<u32>, s: int) -> int
    decreases its.len(),
{
    if its.len() == 0 {
        0
    } else {
        sym_count(its.drop_last(), s) + if item_sym(its.last()) == s {
            1int
        } else {
            0
        }
    }
}

/// The number of bits of the items with the codeword lengths `pl`.
pub open spec fn items_cost(its: Seq<u32>, pl: Seq<u8>) -> int
    decreases its.len(),
{
    if its.len() == 0 {
        0
    } else {
        items_cost(its.drop_last(), pl) + pl[item_sym(its.last())] + EXTRA_PRECODE_BITS@[item_sym(
            its.last(),
        )]
    }
}

/// The items have been tallied in `freqs`.
pub open spec fn tallied(its: Seq<u32>, freqs: Seq<u32>) -> bool {
    freqs.len() == 19 && forall|s: int| 0 <= s < 19 ==> #[trigger] freqs[s] == sym_count(its, s)
}

/// The state of packing: the items so far stand for the first `n` of the lengths.
pub open spec fn packed_upto(its: Seq<u32>, freqs: Seq<u32>, lens: Seq<u8>, n: int) -> bool {
    &&& 0 <= n <= lens.len()
    &&& items_valid(its)
    &&& expand(its) == lens.take(n)
    &&& tallied(its, freqs)
    &&& its.len() <= n
}

proof fn lemma_counts_bound(its: Seq<u32>)
    ensures
        forall|s: int| 0 <= #[trigger] sym_count(its, s) <= its.len(),
    decreases its.len(),
{
    if its.len() > 0 {
        lemma_counts_bound(its.drop_last());
        assert forall|s: int| 0 <= #[trigger] sym_count(its, s) <= its.len() by {
            assert(sym_count(its.drop_last(), s) >= 0);
        }
    }
}

/// Flags controlling which RLE codes are used in precode encoding.
#[derive(Clone, Copy, PartialEq, Eq, Structural)]
pub struct PrecodeFlags {
    /// Allow RLE code 16 (repeat previous non-zero length, 3-6 times).
    pub use_16: bool,
    /// Allow RLE code 17 (repeat zero, 3-10 times).
    pub use_17: bool,
    /// Allow RLE code 18 (repeat zero, 11-138 times).
    pub use_18: bool,
    /// When a non-zero symbol repeats exactly 7 times, encode as two code-16
    /// runs (4+3) instead of one code-16 run (6) + 1 literal.
    pub fuse_7: bool,
    /// When a non-zero symbol repeats exactly 8 times, encode as two code-16
    /// runs (4+4) instead of one code-16 run (6) + 2 literals.
    pub fuse_8: bool,
}

impl PrecodeFlags {
    /// All RLE codes enabled, no fusing.
    pub fn standard() -> (r: Self)
        ensures
            r == PrecodeFlags::all_codes(),
    {
        PrecodeFlags { use_16: true, use_17: true, use_18: true, fuse_7: false, fuse_8: false }
    }

    /// Construct from a bitmask (5 bits: use_16, use_17, use_18, fuse_7, fuse_8).
    pub fn from_bits(bits: u8) -> (r: Self)
        ensures
            r.use_16 == bits::num_bit(bits as int, 0),
            r.use_17 == bits::num_bit(bits as int, 1),
            r.use_18 == bits::num_bit(bits as int, 2),
            r.fuse_7 == bits::num_bit(bits as int, 3),
            r.fuse_8 == bits::num_bit(bits as int, 4),
    {
        proof {
            lemma2_to64();
        }
        PrecodeFlags {
            use_16: bits % 2 == 1,
            use_17: (bits / 2) % 2 == 1,
            use_18: (bits / 4) % 2 == 1,
            fuse_7: (bits / 8) % 2 == 1,
            fuse_8: (bits / 16) % 2 == 1,
        }
    }

    /// Check if this flag combination is valid.
    /// fuse_7/fuse_8 require use_16.
    pub fn is_valid(self) -> (r: bool)
        ensures
            r == self.valid(),
    {
        if (self.fuse_7 || self.fuse_8) && !self.use_16 {
            return false;
        }
        true
    }
}

impl PrecodeFlags {
    /// Fusing is a matter of code 16.
    pub open spec fn valid(self) -> bool {
        (self.fuse_7 || self.fuse_8) ==> self.use_16
    }

    /// All RLE codes, no fusing.
    pub open spec fn all_codes() -> Self {
        PrecodeFlags { use_16: true, use_17: true, use_18: true, fuse_7: false, fuse_8: false }
    }
}

/// The item of a symbol with an extra value.
pub open spec fn item(sym: int, extra: int) -> u32 {
    (sym + 32 * extra) as u32
}

/// A length `r` times, each by itself.
pub open spec fn copies(len: int, r: int) -> Seq<u32>
    decreases r,
{
    if r <= 0 {
        Seq::empty()
    } else {
        seq![item(len, 0)] + copies(len, r - 1)
    }
}

/// Zero `r` times, with code 17 as long as it can be used.
pub open spec fn zeros_17(r: int, f: PrecodeFlags) -> Seq<u32>
    decreases r,
{
    if f.use_17 && r >= 3 {
        let k = if r < 10 {
            r
        } else {
            10
        };
        seq![item(17, k - 3)] + zeros_17(r - k, f)
    } else {
        copies(0, r)
    }
}

/// Zero `r` times, with code 18 as long as it can be used.
pub open spec fn zeros_18(r: int, f: PrecodeFlags) -> Seq<u32>
    decreases r,
{
    if f.use_18 && r >= 11 {
        let k = if r < 138 {
            r
        } else {
            138
        };
        seq![item(18, k - 11)] + zeros_18(r - k, f)
    } else {
        zeros_17(r, f)
    }
}

/// The length before, `r` more times, with code 16 as long as it can be used.
pub open spec fn repeats_16(len: int, r: int) -> Seq<u32>
    decreases r,
{
    if r >= 3 {
        let k = if r < 6 {
            r
        } else {
            6
        };
        seq![item(16, k - 3)] + repeats_16(len, r - k)
    } else {
        copies(len, r)
    }
}

/// The items of a run of `r` equal lengths.
pub open spec fn run_items(len: int, r: int, f: PrecodeFlags) -> Seq<u32> {
    if len == 0 {
        zeros_18(r, f)
    } else if f.use_16 && r >= 4 {
        seq![item(len, 0)] + if (f.fuse_7 && r == 8) || (f.fuse_8 && r == 9) {
            seq![item(16, 1)] + repeats_16(len, r - 5)
        } else {
            repeats_16(len, r - 1)
        }
    } else {
        copies(len, r)
    }
}

/// Where the run of equal lengths that starts at `p` and reaches to `e` ends.
pub open spec fn run_end(lens: Seq<u8>, p: int, e: int) -> int
    decreases lens.len() - e,
{
    if e < lens.len() && lens[e] == lens[p] {
        run_end(lens, p, e + 1)
    } else {
        e
    }
}

/// The items of the lengths from `p` on, run by run.
pub open spec fn packed_from(lens: Seq<u8>, p: int, f: PrecodeFlags) -> Seq<u32>
    decreases lens.len() - p,
{
    let e = run_end(lens, p, p + 1);
    if p >= lens.len() || e <= p || e > lens.len() {
        Seq::empty()
    } else {
        run_items(lens[p] as int, e - p, f) + packed_from(lens, e, f)
    }
}

proof fn lemma_push_front(a: Seq<u32>, x: u32, b: Seq<u32>, c: Seq<u32>)
    ensures
        a + (seq![x] + b) + c == a.push(x) + b + c,
{
    assert(a + (seq![x] + b) + c =~= a.push(x) + b + c);
}

/// Add one item and count its symbol; it stands for the next `n` lengths.
fn push_item(
    its: &mut Vec<u32>,
    freqs: &mut [u32; 19],
    sym: u32,
    extra: u32,
    lens: Ghost<Seq<u8>>,
    from: Ghost<int>,
    n: Ghost<int>,
)
    requires
        packed_upto(old(its)@, old(freqs)@, lens@, from@),
        lens@.len() <= 320,
        sym < 19,
        extra < pow2(EXTRA_PRECODE_BITS@[sym as int] as nat),
        extra < 128,
        n@ >= 1,
        from@ + n@ <= lens@.len(),
        sym < 16 ==> n@ == 1 && lens@[from@] == sym,
        sym == 16 ==> n@ == 3 + extra && from@ > 0 && forall|i: int|
            from@ <= i < from@ + n@ ==> #[trigger] lens@[i] == lens@[from@ - 1],
        sym == 17 ==> n@ == 3 + extra && forall|i: int|
            from@ <= i < from@ + n@ ==> #[trigger] lens@[i] == 0,
        sym == 18 ==> n@ == 11 + extra && forall|i: int|
            from@ <= i < from@ + n@ ==> #[trigger] lens@[i] == 0,
    ensures
        packed_upto(final(its)@, final(freqs)@, lens@, from@ + n@),
        final(its)@ == old(its)@.push(item(sym as int, extra as int)),
{
    let it: u32 = sym + extra * 32;
    let ghost old_its = its@;
    proof {
        lemma_counts_bound(its@);
        assert(item_sym(it) == sym && item_extra(it) == extra);
        let o = lens@.take(from@);
        assert(o + item_run(o, it) =~= lens@.take(from@ + n@));
        assert(its@.push(it).drop_last() =~= its@);
        assert(freqs@[sym as int] == sym_count(its@, sym as int));
    }
    its.push(it);
    freqs[sym as usize] = freqs[sym as usize] + 1;
    proof {
        assert forall|s: int| 0 <= s < 19 implies #[trigger] freqs@[s] == sym_count(its@, s) by {
            assert(sym_count(old_its, s) >= 0);
        }
    }
}

/// Pack lengths with configurable RLE strategy flags.
///
/// Fills `precode_freqs` with the number of uses of each precode symbol and
/// `precode_items` with the packed items.
pub fn compute_precode_items_flagged(
    lens: &[u8],
    precode_freqs: &mut [u32; 19],
    precode_items: &mut Vec<u32>,
    flags: PrecodeFlags,
)
    requires
        lens@.len() <= 320,
        forall|i: int| 0 <= i < lens@.len() ==> #[trigger] lens@[i] <= 15,
    ensures
        items_valid(final(precode_items)@),
        expand(final(precode_items)@) == lens@,
        tallied(final(precode_items)@, final(precode_freqs)@),
        final(precode_items)@.len() <= lens@.len(),
        final(precode_items)@ == packed_from(lens@, 0, flags),
{
    *precode_freqs = [0u32; 19];
    precode_items.clear();
    let n: usize = lens.len();
    let mut run_start: usize = 0;
    let ghost goal = packed_from(lens@, 0, flags);
    proof {
        assert(precode_items@ + goal =~= goal);
        assert(lens@.take(0) =~= Seq::empty());
        lemma2_to64();
    }
    while run_start < n
        invariant
            n == lens@.len(),
            n <= 320,
            forall|i: int| 0 <= i < lens@.len() ==> #[trigger] lens@[i] <= 15,
            packed_upto(precode_items@, precode_freqs@, lens@, run_start as int),
            precode_items@ + packed_from(lens@, run_start as int, flags) == goal,
        decreases n - run_start,
    {
        let ghost items0 = precode_items@;
        let len: u8 = lens[run_start];
        let ghost start0 = run_start as int;
        let mut run_end: usize = run_start + 1;
        while run_end < n && lens[run_end] == len
            invariant
                start0 == run_start,
                run_start < run_end <= n == lens@.len(),
                len == lens@[start0],
                self::run_end(lens@, start0, run_end as int) == self::run_end(
                    lens@,
                    start0,
                    start0 + 1,
                ),
                forall|i: int| run_start <= i < run_end ==> #[trigger] lens@[i] == len,
            decreases n - run_end,
        {
            run_end = run_end + 1;
        }
        let ghost rest = packed_from(lens@, run_end as int, flags);
        proof {
            let r = run_items(len as int, run_end - run_start, flags);
            assert(items0 + (r + rest) =~= items0 + r + rest);
        }
        if len == 0 {
            if flags.use_18 {
                while run_end - run_start >= 11
                    invariant
                        0 <= start0 <= run_start <= run_end <= n == lens@.len(),
                        n <= 320,
                        forall|i: int| start0 <= i < run_end ==> #[trigger] lens@[i] == 0,
                        packed_upto(precode_items@, precode_freqs@, lens@, run_start as int),
                        flags.use_18,
                        precode_items@ + zeros_18(run_end - run_start, flags) + rest == goal,
                    decreases run_end - run_start,
                {
                    let extra: u32 = min_usize(run_end - run_start - 11, 127) as u32;
                    proof {
                        lemma2_to64();
                        lemma_push_front(
                            precode_items@,
                            item(18, extra as int),
                            zeros_18(run_end - run_start - 11 - extra, flags),
                            rest,
                        );
                    }
                    push_item(
                        precode_items,
                        precode_freqs,
                        18,
                        extra,
                        Ghost(lens@),
                        Ghost(run_start as int),
                        Ghost(11 + extra),
                    );
                    run_start = run_start + 11 + extra as usize;
                }
            }
            if flags.use_17 {
                while run_end - run_start >= 3
                    invariant
                        0 <= start0 <= run_start <= run_end <= n == lens@.len(),
                        n <= 320,
                        forall|i: int| start0 <= i < run_end ==> #[trigger] lens@[i] == 0,
                        packed_upto(precode_items@, precode_freqs@, lens@, run_start as int),
                        flags.use_17,
                        precode_items@ + zeros_17(run_end - run_start, flags) + rest == goal,
                    decreases run_end - run_start,
                {
                    let extra: u32 = min_usize(run_end - run_start - 3, 7) as u32;
                    proof {
                        lemma2_to64();
                        lemma_push_front(
                            precode_items@,
                            item(17, extra as int),
                            zeros_17(run_end - run_start - 3 - extra, flags),
                            rest,
                        );
                    }
                    push_item(
                        precode_items,
                        precode_freqs,
                        17,
                        extra,
                        Ghost(lens@),
                        Ghost(run_start as int),
                        Ghost(3 + extra),
                    );
                    run_start = run_start + 3 + extra as usize;
                }
            }
        } else if flags.use_16 && run_end - run_start >= 4 {
            let ghost r = run_end - run_start;
            proof {
                lemma2_to64();
                lemma_push_front(
                    precode_items@,
                    item(len as int, 0),
                    if (flags.fuse_7 && r == 8) || (flags.fuse_8 && r == 9) {
                        seq![item(16, 1)] + repeats_16(len as int, r - 5)
                    } else {
                        repeats_16(len as int, r - 1)
                    },
                    rest,
                );
            }
            push_item(
                precode_items,
                precode_freqs,
                len as u32,
                0,
                Ghost(lens@),
                Ghost(run_start as int),
                Ghost(1),
            );
            run_start = run_start + 1;
            let repeats: usize = run_end - run_start;
            if (flags.fuse_7 && repeats == 7) || (flags.fuse_8 && repeats == 8) {
                proof {
                    lemma_push_front(
                        precode_items@,
                        item(16, 1),
                        repeats_16(len as int, r - 5),
                        rest,
                    );
                }
                push_item(
                    precode_items,
                    precode_freqs,
                    16,
                    1,
                    Ghost(lens@),
                    Ghost(run_start as int),
                    Ghost(4),
                );
                run_start = run_start + 4;
            }
            while run_end - run_start >= 3
                invariant
                    0 <= start0 < run_start <= run_end <= n == lens@.len(),
                    n <= 320,
                    forall|i: int| start0 <= i < run_end ==> #[trigger] lens@[i] == len,
                    packed_upto(precode_items@, precode_freqs@, lens@, run_start as int),
                    precode_items@ + repeats_16(len as int, run_end - run_start) + rest == goal,
                decreases run_end - run_start,
            {
                let extra: u32 = min_usize(run_end - run_start - 3, 3) as u32;
                proof {
                    lemma2_to64();
                    assert(lens@[run_start - 1] == len);
                    lemma_push_front(
                        precode_items@,
                        item(16, extra as int),
                        repeats_16(len as int, run_end - run_start - 3 - extra),
                        rest,
                    );
                    assert forall|i: int| run_start <= i < run_start + 3 + extra implies #[trigger] lens@[i]
                        == lens@[run_start - 1] by {
                        assert(lens@[i] == len);
                    }
                }
                push_item(
                    precode_items,
                    precode_freqs,
                    16,
                    extra,
                    Ghost(lens@),
                    Ghost(run_start as int),
                    Ghost(3 + extra),
                );
                run_start = run_start + 3 + extra as usize;
            }
        }
        // Output remaining lengths without RLE.
        while run_start < run_end
            invariant
                0 <= start0 <= run_start <= run_end <= n == lens@.len(),
                n <= 320,
                len <= 15,
                forall|i: int| start0 <= i < run_end ==> #[trigger] lens@[i] == len,
                packed_upto(precode_items@, precode_freqs@, lens@, run_start as int),
                precode_items@ + copies(len as int, run_end - run_start) + rest == goal,
            decreases run_end - run_start,
        {
            proof {
                lemma2_to64();
                assert(lens@[run_start as int] == len);
                lemma_push_front(
                    precode_items@,
                    item(len as int, 0),
                    copies(len as int, run_end - run_start - 1),
                    rest,
                );
            }
            push_item(
                precode_items,
                precode_freqs,
                len as u32,
                0,
                Ghost(lens@),
                Ghost(run_start as int),
                Ghost(1),
            );
            run_start = run_start + 1;
        }
        proof {
            assert(precode_items@ + Seq::<u32>::empty() =~= precode_items@);
        }
    }
    proof {
        assert(lens@.take(n as int) =~= lens@);
        assert(precode_items@ + Seq::<u32>::empty() =~= precode_items@);
    }
}

/// Pack lengths with all RLE codes.
pub fn compute_precode_items(
    lens: &[u8],
    precode_freqs: &mut [u32; 19],
    precode_items: &mut Vec<u32>,
)
    requires
        lens@.len() <= 320,
        forall|i: int| 0 <= i < lens@.len() ==> #[trigger] lens@[i] <= 15,
    ensures
        items_valid(final(precode_items)@),
        expand(final(precode_items)@) == lens@,
        tallied(final(precode_items)@, final(precode_freqs)@),
        final(precode_items)@.len() <= lens@.len(),
        final(precode_items)@ == packed_from(lens@, 0, PrecodeFlags::all_codes()),
{
    compute_precode_items_flagged(lens, precode_freqs, precode_items, PrecodeFlags::standard());
}

/// A packing of codeword lengths together with the precode that it uses.
pub struct BestPrecodeResult {
    pub precode_freqs: [u32; 19],
    pub precode_items: Vec<u32>,
    pub precode_lens: [u8; 19],
    pub precode_codewords: [u32; 19],
    pub num_explicit_lens: usize,
    pub cost: u32,
}

impl BestPrecodeResult {
    /// The packing stands for `lens`, its precode is valid and `cost` is the
    /// number of bits that the header takes.
    pub open spec fn wf(&self, lens: Seq<u8>) -> bool {
        &&& items_valid(self.precode_items@)
        &&& expand(self.precode_items@) == lens
        &&& self.precode_items@.len() <= lens.len()
        &&& emit::code_ok(self.precode_lens@)
        &&& forall|s: int| 0 <= s < 19 ==> #[trigger] self.precode_lens@[s] <= 7
        &&& codes::has_codewords(self.precode_lens@, self.precode_codewords@)
        &&& forall|s: int|
            0 <= s < 19 && sym_count(self.precode_items@, s) > 0 ==> #[trigger] self.precode_lens@[s]
                > 0
        &&& 4 <= self.num_explicit_lens <= 19
        &&& forall|k: int|
            self.num_explicit_lens <= k < 19 ==> self.precode_lens@[#[trigger] DEFLATE_PRECODE_LENS_PERMUTATION@[k] as int]
                == 0
        &&& self.cost == 14 + 3 * self.num_explicit_lens + items_cost(
            self.precode_items@,
            self.precode_lens@,
        )
        &&& self.cost <= 14 + 57 + 14 * 320
    }
}

/// The sum over the first `n` precode symbols of their uses times their bits.
spec fn sym_sum(its: Seq<u32>, pl: Seq<u8>, n: nat) -> int
    decreases n,
{
    if n == 0 {
        0
    } else {
        sym_sum(its, pl, (n - 1) as nat) + sym_count(its, n - 1) * (pl[n - 1]
            + EXTRA_PRECODE_BITS@[n - 1])
    }
}

proof fn lemma_sym_sum_step(its: Seq<u32>, pl: Seq<u8>, n: nat)
    requires
        its.len() > 0,
    ensures
        ({
            let s = item_sym(its.last());
            sym_sum(its, pl, n) == sym_sum(its.drop_last(), pl, n) + if 0 <= s < n {
                pl[s] + EXTRA_PRECODE_BITS@[s]
            } else {
                0
            }
        }),
    decreases n,
{
    if n > 0 {
        lemma_sym_sum_step(its, pl, (n - 1) as nat);
        let w = pl[n - 1] + EXTRA_PRECODE_BITS@[n - 1];
        let c = sym_count(its.drop_last(), n - 1);
        assert((c + 1) * w == c * w + w) by (nonlinear_arith);
    }
}

proof fn lemma_sym_sum_zero(its: Seq<u32>, pl: Seq<u8>, n: nat)
    requires
        its.len() == 0,
    ensures
        sym_sum(its, pl, n) == 0,
    decreases n,
{
    if n > 0 {
        lemma_sym_sum_zero(its, pl, (n - 1) as nat);
        assert(0 * (pl[n - 1] + EXTRA_PRECODE_BITS@[n - 1]) == 0);
    }
}

/// The bits of the items follow from how often each symbol occurs.
proof fn lemma_items_cost(its: Seq<u32>, pl: Seq<u8>)
    requires
        items_valid(its),
        pl.len() == 19,
        forall|s: int| 0 <= s < 19 ==> #[trigger] pl[s] <= 7,
    ensures
        items_cost(its, pl) == sym_sum(its, pl, 19),
        0 <= items_cost(its, pl) <= 14 * its.len(),
    decreases its.len(),
{
    if its.len() == 0 {
        lemma_sym_sum_zero(its, pl, 19);
    } else {
        lemma_items_cost(its.drop_last(), pl);
        lemma_sym_sum_step(its, pl, 19);
    }
}

proof fn lemma_sym_sum_mono(its: Seq<u32>, pl: Seq<u8>, m: nat, n: nat)
    requires
        m <= n,
    ensures
        0 <= sym_sum(its, pl, m) <= sym_sum(its, pl, n),
    decreases n,
{
    if n > m {
        lemma_sym_sum_mono(its, pl, m, (n - 1) as nat);
    } else if n > 0 {
        lemma_sym_sum_mono(its, pl, (m - 1) as nat, (n - 1) as nat);
    }
    if n > 0 {
        lemma_counts_bound(its);
        let c = sym_count(its, n - 1);
        let w = pl[n - 1] + EXTRA_PRECODE_BITS@[n - 1];
        assert(c * w >= 0) by (nonlinear_arith)
            requires
                c >= 0,
                w >= 0,
        ;
    }
}

impl BestPrecodeResult {
    /// The precode is a Huffman code for the packed items, with lengths up to 7; if none of
    /// its codewords has that length, it is the cheapest one. No more of its lengths are
    /// written than have to be.
    pub open spec fn built(&self) -> bool {
        &&& tallied(self.precode_items@, self.precode_freqs@)
        &&& (forall|s: int| 0 <= s < 19 ==> #[trigger] self.precode_lens@[s] < 7)
            ==> huffman::cheapest(self.precode_freqs@, self.precode_lens@)
        &&& huffman_model::lengths_for(self.precode_freqs@, 7, self.precode_lens@)
        &&& self.num_explicit_lens > 4
            ==> self.precode_lens@[DEFLATE_PRECODE_LENS_PERMUTATION@[self.num_explicit_lens - 1] as int]
            > 0
    }
}

impl BestPrecodeResult {
    /// The lengths are packed in the way that the flags say, with a Huffman code for the
    /// items.
    pub open spec fn packs(&self, lens: Seq<u8>, f: PrecodeFlags) -> bool {
        &&& self.wf(lens)
        &&& self.built()
        &&& self.precode_items@ == packed_from(lens, 0, f)
    }

    /// The lengths are packed in some valid way.
    pub open spec fn packs_somehow(&self, lens: Seq<u8>) -> bool {
        exists|f: PrecodeFlags| f.valid() && #[trigger] self.packs(lens, f)
    }

    /// Packing the lengths in the way that the flags say takes no fewer bits.
    pub open spec fn no_dearer(&self, lens: Seq<u8>, f: PrecodeFlags) -> bool {
        exists|r: BestPrecodeResult| #[trigger] r.packs(lens, f) && self.cost <= r.cost
    }

    /// No valid way to pack the lengths takes fewer bits.
    pub open spec fn lowest(&self, lens: Seq<u8>) -> bool {
        forall|m: int|
            0 <= m < 32 && (#[trigger] flags_of(m)).valid() ==> self.no_dearer(lens, flags_of(m))
    }
}

/// The flags of a bitmask.
pub open spec fn flags_of(m: int) -> PrecodeFlags {
    PrecodeFlags {
        use_16: bits::num_bit(m, 0),
        use_17: bits::num_bit(m, 1),
        use_18: bits::num_bit(m, 2),
        fuse_7: bits::num_bit(m, 3),
        fuse_8: bits::num_bit(m, 4),
    }
}

/// Pack lengths in one way and build the precode for it.
pub fn pack_lens(lens: &[u8], flags: PrecodeFlags) -> (r: BestPrecodeResult)
    requires
        1 <= lens@.len() <= 320,
        forall|i: int| 0 <= i < lens@.len() ==> #[trigger] lens@[i] <= 15,
    ensures
        r.wf(lens@),
        r.packs(lens@, flags),
{
    let mut freqs: [u32; 19] = [0u32; 19];
    let mut its: Vec<u32> = Vec::new();
    compute_precode_items_flagged(lens, &mut freqs, &mut its, flags);
    let mut plens: [u8; 19] = [0u8; 19];
    let mut pcodes: [u32; 19] = [0u32; 19];
    proof {
        lemma_counts_bound(its@);
        lemma2_to64();
        huffman::lemma_used_bound(freqs@, 19);
        assert forall|s: int| 0 <= s < 19 implies #[trigger] freqs@[s] < 0x40_0000 by {
            assert(sym_count(its@, s) <= its@.len());
        }
    }
    make_huffman_code(19, 7, &freqs, &mut plens, &mut pcodes);
    let mut explicit: usize = 19;
    while explicit > 4 && plens[DEFLATE_PRECODE_LENS_PERMUTATION[explicit - 1] as usize] == 0
        invariant
            4 <= explicit <= 19,
            forall|k: int|
                explicit <= k < 19 ==> plens@[#[trigger] DEFLATE_PRECODE_LENS_PERMUTATION@[k] as int]
                    == 0,
        decreases explicit,
    {
        explicit = explicit - 1;
    }
    let mut cost: u32 = 14 + 3 * explicit as u32;
    let mut sym: usize = 0;
    proof {
        lemma_items_cost(its@, plens@);
    }
    while sym < 19
        invariant
            sym <= 19,
            4 <= explicit <= 19,
            tallied(its@, freqs@),
            its@.len() <= 320,
            plens@.len() == 19,
            0 <= sym_sum(its@, plens@, 19) <= 14 * 320,
            cost == 14 + 3 * explicit + sym_sum(its@, plens@, sym as nat),
        decreases 19 - sym,
    {
        proof {
            lemma_sym_sum_mono(its@, plens@, sym as nat, 19);
            lemma_sym_sum_mono(its@, plens@, (sym + 1) as nat, 19);
            assert(freqs@[sym as int] == sym_count(its@, sym as int));
        }
        cost = cost + freqs[sym] * (plens[sym] as u32 + EXTRA_PRECODE_BITS[sym] as u32);
        sym = sym + 1;
    }
    proof {
        assert forall|s: int| 0 <= s < 19 && sym_count(its@, s) > 0 implies #[trigger] plens@[s] > 0 by {
            assert(freqs@[s] == sym_count(its@, s));
        }
    }
    BestPrecodeResult {
        precode_freqs: freqs,
        precode_items: its,
        precode_lens: plens,
        precode_codewords: pcodes,
        num_explicit_lens: explicit,
        cost,
    }
}

/// The bit cost of packing lengths with the given flags.
pub fn compute_precode_cost(lens: &[u8], flags: PrecodeFlags) -> (cost: u32)
    requires
        1 <= lens@.len() <= 320,
        forall|i: int| 0 <= i < lens@.len() ==> #[trigger] lens@[i] <= 15,
    ensures
        exists|r: BestPrecodeResult| #[trigger] r.packs(lens@, flags) && r.cost == cost,
{
    let r: BestPrecodeResult = pack_lens(lens, flags);
    r.cost
}

/// Search all valid flag combinations and return the packing with the lowest
/// bit cost.
pub fn compute_precode_items_best(lens: &[u8]) -> (best: BestPrecodeResult)
    requires
        1 <= lens@.len() <= 320,
        forall|i: int| 0 <= i < lens@.len() ==> #[trigger] lens@[i] <= 15,
    ensures
        best.wf(lens@),
        best.built(),
        best.packs_somehow(lens@),
        best.lowest(lens@),
        best.packs(lens@, cost_model::best_flags(lens@, 32)),
{
    let mut best: BestPrecodeResult = pack_lens(lens, PrecodeFlags::standard());
    assert(best.packs(lens@, PrecodeFlags::all_codes()));
    let mut mask: u8 = 0;
    while mask < 32
        invariant
            mask <= 32,
            1 <= lens@.len() <= 320,
            forall|i: int| 0 <= i < lens@.len() ==> #[trigger] lens@[i] <= 15,
            best.wf(lens@),
            best.built(),
            best.packs_somehow(lens@),
            best.packs(lens@, cost_model::best_flags(lens@, mask as int)),
            forall|m: int|
                0 <= m < mask && (#[trigger] flags_of(m)).valid() ==> best.no_dearer(
                    lens@,
                    flags_of(m),
                ),
        decreases 32 - mask,
    {
        let flags: PrecodeFlags = PrecodeFlags::from_bits(mask);
        let ghost was = best;
        assert(flags == flags_of(mask as int));
        if flags.is_valid() {
            let r: BestPrecodeResult = pack_lens(lens, flags);
            assert(r.packs(lens@, flags));
            proof {
                cost_model::lemma_header_cost(lens@, flags, r);
                cost_model::lemma_header_cost(
                    lens@,
                    cost_model::best_flags(lens@, mask as int),
                    best,
                );
            }
            if r.cost < best.cost {
                best = r;
            }
        }
        proof {
            assert forall|m: int| 0 <= m < mask && (#[trigger] flags_of(m)).valid() implies best.no_dearer(
                lens@,
                flags_of(m),
            ) by {
                assert(was.no_dearer(lens@, flags_of(m)));
            }
        }
        mask = mask + 1;
    }
    best
}

/// The first `k` precode lengths as fields of three bits.
pub open spec fn field_bits(pl: Seq<u8>, k: nat) -> Seq<bool>
    decreases k,
{
    if k == 0 {
        Seq::empty()
    } else {
        field_bits(pl, (k - 1) as nat) + bits::num_bits(
            pl[DEFLATE_PRECODE_LENS_PERMUTATION@[k - 1] as int] as int,
            3,
        )
    }
}

/// The bits of packed items.
pub open spec fn item_bits(its: Seq<u32>, pl: Seq<u8>) -> Seq<bool>
    decreases its.len(),
{
    if its.len() == 0 {
        Seq::empty()
    } else {
        let it = its.last();
        item_bits(its.drop_last(), pl) + emit::code_bits(pl, item_sym(it)) + bits::num_bits(
            item_extra(it),
            EXTRA_PRECODE_BITS@[item_sym(it)] as nat,
        )
    }
}

/// The bits that a block starts with: whether it is the last one, and its type.
pub open spec fn type_bits(last: bool, kind: int) -> Seq<bool> {
    bits::num_bits(
        if last {
            1
        } else {
            0
        },
        1,
    ) + bits::num_bits(kind, 2)
}

/// The fixed fields of a dynamic block's header.
pub open spec fn fixed_bits(last: bool, nl: int, no: int, np: int) -> Seq<bool> {
    type_bits(last, 2) + bits::num_bits(nl - 257, 5) + bits::num_bits(no - 1, 5) + bits::num_bits(
        np - 4,
        4,
    )
}

/// The bits of a dynamic block's header, from the block's type on.
pub open spec fn header_bits(
    last: bool,
    nl: int,
    no: int,
    np: int,
    its: Seq<u32>,
    pl: Seq<u8>,
) -> Seq<bool> {
    fixed_bits(last, nl, no, np) + field_bits(pl, np as nat) + item_bits(its, pl)
}

/// The type of a block, written behind `b`, reads back.
pub proof fn lemma_type_read(b: Seq<bool>, last: bool, kind: int, ext: Seq<bool>)
    requires
        0 <= kind < 4,
    ensures
        ({
            let bb = b + type_bits(last, kind) + ext;
            &&& type_bits(last, kind).len() == 3
            &&& type_bits(last, kind)[0] == last
            &&& bits::le_val(bb, (b.len() + 1) as int, 2) == kind
        }),
{
    lemma2_to64();
    let v = if last {
        1int
    } else {
        0
    };
    let f1 = bits::num_bits(v, 1);
    let f2 = bits::num_bits(kind, 2);
    assert(type_bits(last, kind)[0] == f1[0]);
    assert(f1[0] == last) by {
        assert(v / 1 == v);
    }
    assert(b + type_bits(last, kind) + ext =~= (b + f1) + f2 + ext);
    emit::lemma_field_read(b + f1, kind, 2, ext);
}

/// The fixed fields of a dynamic block's header, written behind `b`, read back.
proof fn lemma_fixed_read(b: Seq<bool>, last: bool, nl: int, no: int, np: int, ext: Seq<bool>)
    requires
        257 <= nl <= 288,
        1 <= no <= 32,
        4 <= np <= 19,
    ensures
        ({
            let bb = b + fixed_bits(last, nl, no, np) + ext;
            let p = b.len() as int;
            &&& fixed_bits(last, nl, no, np).len() == 17
            &&& fixed_bits(last, nl, no, np)[0] == last
            &&& bits::le_val(bb, p + 1, 2) == 2
            &&& bits::le_val(bb, p + 3, 5) == nl - 257
            &&& bits::le_val(bb, p + 3 + 5, 5) == no - 1
            &&& bits::le_val(bb, p + 3 + 10, 4) == np - 4
        }),
{
    lemma2_to64();
    let f2 = type_bits(last, 2);
    let f3 = bits::num_bits(nl - 257, 5);
    let f4 = bits::num_bits(no - 1, 5);
    let f5 = bits::num_bits(np - 4, 4);
    let bb = b + fixed_bits(last, nl, no, np) + ext;
    lemma_type_read(b, last, 2, f3 + f4 + f5 + ext);
    assert(fixed_bits(last, nl, no, np)[0] == f2[0]);
    assert(bb =~= b + f2 + (f3 + f4 + f5 + ext));
    assert(bb =~= (b + f2) + f3 + (f4 + f5 + ext));
    emit::lemma_field_read(b + f2, nl - 257, 5, f4 + f5 + ext);
    assert(bb =~= (b + f2 + f3) + f4 + (f5 + ext));
    emit::lemma_field_read(b + f2 + f3, no - 1, 5, f5 + ext);
    assert(bb =~= (b + f2 + f3 + f4) + f5 + ext);
    emit::lemma_field_read(b + f2 + f3 + f4, np - 4, 4, ext);
}

proof fn lemma_field_bits_len(pl: Seq<u8>, k: nat)
    ensures
        field_bits(pl, k).len() == 3 * k,
    decreases k,
{
    if k > 0 {
        lemma_field_bits_len(pl, (k - 1) as nat);
    }
}

proof fn lemma_field_bits_prefix(pl: Seq<u8>, j: nat, k: nat)
    requires
        j <= k,
    ensures
        field_bits(pl, k).take(3 * j as int) == field_bits(pl, j),
    decreases k,
{
    lemma_field_bits_len(pl, k);
    lemma_field_bits_len(pl, j);
    if j == k {
        assert(field_bits(pl, k).take(3 * k as int) =~= field_bits(pl, k));
    } else {
        lemma_field_bits_prefix(pl, j, (k - 1) as nat);
        lemma_field_bits_len(pl, (k - 1) as nat);
        assert(field_bits(pl, k).take(3 * j as int) =~= field_bits(pl, (k - 1) as nat).take(
            3 * j as int,
        ));
    }
}

/// A precode length reads back.
proof fn lemma_field_at(b: Seq<bool>, pl: Seq<u8>, n: nat, j: nat, ext: Seq<bool>)
    requires
        j < n <= 19,
        pl.len() == 19,
        forall|s: int| 0 <= s < 19 ==> #[trigger] pl[s] <= 7,
    ensures
        bits::le_val(b + field_bits(pl, n) + ext, (b.len() + 3 * j) as int, 3)
            == pl[DEFLATE_PRECODE_LENS_PERMUTATION@[j as int] as int],
{
    lemma2_to64();
    lemma_field_bits_len(pl, n);
    lemma_field_bits_len(pl, j);
    lemma_field_bits_prefix(pl, (j + 1) as nat, n);
    let f = field_bits(pl, n);
    let rest = f.skip(3 * (j + 1) as int);
    assert(DEFLATE_PRECODE_LENS_PERMUTATION@[j as int] < 19);
    let v = pl[DEFLATE_PRECODE_LENS_PERMUTATION@[j as int] as int] as int;
    assert(f =~= field_bits(pl, (j + 1) as nat) + rest);
    assert(b + f + ext =~= (b + field_bits(pl, j)) + bits::num_bits(v, 3) + (rest + ext));
    emit::lemma_field_read(b + field_bits(pl, j), v, 3, rest + ext);
}

/// The place of a precode symbol in the order of the header.
spec fn place(s: int) -> int {
    if s == 0 {
        3
    } else if s >= 16 {
        s - 16
    } else if s >= 8 {
        2 * s - 12
    } else {
        19 - 2 * s
    }
}

proof fn lemma_place(k: int)
    requires
        0 <= k < 19,
    ensures
        0 <= DEFLATE_PRECODE_LENS_PERMUTATION@[k] < 19,
        place(DEFLATE_PRECODE_LENS_PERMUTATION@[k] as int) == k,
{
}

proof fn lemma_place_inverse(s: int)
    requires
        0 <= s < 19,
    ensures
        0 <= place(s) < 19,
        DEFLATE_PRECODE_LENS_PERMUTATION@[place(s)] == s,
{
}

/// The value that is read for the precode symbol `s`.
proof fn lemma_precode_lens_at(b: Seq<bool>, p: int, n: int, k: nat, s: int)
    requires
        k <= 19,
        0 <= s < 19,
    ensures
        stream::precode_lens(b, p, n, k).len() == 19,
        stream::precode_lens(b, p, n, k)[s] == if place(s) < k && place(s) < n {
            bits::le_val(b, p + 3 * place(s), 3) as u8
        } else {
            0u8
        },
    decreases k,
{
    if k > 0 {
        lemma_precode_lens_at(b, p, n, (k - 1) as nat, s);
        lemma_place(k - 1);
        lemma_place_inverse(s);
    }
}

/// The precode lengths, written behind `b`, read back.
proof fn lemma_precode_read(b: Seq<bool>, pl: Seq<u8>, n: nat, ext: Seq<bool>)
    requires
        4 <= n <= 19,
        pl.len() == 19,
        forall|s: int| 0 <= s < 19 ==> #[trigger] pl[s] <= 7,
        forall|k: int|
            n <= k < 19 ==> pl[#[trigger] DEFLATE_PRECODE_LENS_PERMUTATION@[k] as int] == 0,
    ensures
        stream::precode_lens(b + field_bits(pl, n) + ext, b.len() as int, n as int, 19) == pl,
{
    let bb = b + field_bits(pl, n) + ext;
    let r = stream::precode_lens(bb, b.len() as int, n as int, 19);
    lemma_precode_lens_at(bb, b.len() as int, n as int, 19, 0);
    assert forall|s: int| 0 <= s < 19 implies r[s] == pl[s] by {
        lemma_precode_lens_at(bb, b.len() as int, n as int, 19, s);
        lemma_place_inverse(s);
        let k = place(s);
        if k < n {
            lemma_field_at(b, pl, n, k as nat, ext);
        } else {
            assert(pl[DEFLATE_PRECODE_LENS_PERMUTATION@[k] as int] == 0);
        }
    }
    assert(r =~= pl);
}

proof fn lemma_expand_grows(its: Seq<u32>)
    requires
        items_valid(its),
    ensures
        its.len() <= expand(its).len(),
    decreases its.len(),
{
    if its.len() > 0 {
        lemma_expand_grows(its.drop_last());
    }
}

/// Packed items, written behind `b`, read back as the lengths they stand for.
proof fn lemma_items_read(
    b: Seq<bool>,
    its: Seq<u32>,
    pl: Seq<u8>,
    total: int,
    ext: Seq<bool>,
)
    requires
        items_valid(its),
        emit::code_ok(pl),
        pl.len() == 19,
        expand(its).len() <= total,
        forall|s: int| 0 <= s < 19 && #[trigger] sym_count(its, s) > 0 ==> pl[s] > 0,
    ensures
        item_bits(its, pl).len() == items_cost(its, pl),
        stream::read_lens(b + item_bits(its, pl) + ext, pl, b.len() as int, Seq::empty(), total)
            == stream::read_lens(
            b + item_bits(its, pl) + ext,
            pl,
            (b.len() + item_bits(its, pl).len()) as int,
            expand(its),
            total,
        ),
    decreases its.len(),
{
    if its.len() > 0 {
        let d = its.drop_last();
        let it = its.last();
        let s = item_sym(it);
        let x = item_extra(it);
        let n = EXTRA_PRECODE_BITS@[s] as nat;
        let o = expand(d);
        let run = item_run(o, it);
        let c1 = emit::code_bits(pl, s);
        let c2 = bits::num_bits(x, n);
        let pre = item_bits(d, pl);
        let bb = b + item_bits(its, pl) + ext;
        lemma_counts_bound(d);
        assert(sym_count(d, s) >= 0);
        assert(sym_count(its, s) > 0);
        assert(run.len() >= 1);
        assert forall|t: int| 0 <= t < 19 && #[trigger] sym_count(d, t) > 0 implies pl[t] > 0 by {
            assert(sym_count(its, t) > 0);
        }
        lemma_items_read(b, d, pl, total, c1 + c2 + ext);
        assert(bb =~= b + pre + (c1 + c2 + ext));
        assert(bb =~= (b + pre) + c1 + (c2 + ext));
        emit::lemma_symbol_read(b + pre, pl, s, c2 + ext);
        assert(bb =~= (b + pre + c1) + c2 + ext);
        emit::lemma_field_read(b + pre + c1, x, n, ext);
        let q = (b.len() + pre.len()) as int;
        assert(stream::sym_at(bb, pl, q) == (s, pl[s] as int));
        if s < 16 {
            assert(o.push(s as u8) =~= o + run);
        }
    }
}

/// The header of a dynamic block, written behind `b`, reads back.
pub proof fn lemma_header_read(
    b: Seq<bool>,
    last: bool,
    nl: int,
    no: int,
    np: int,
    its: Seq<u32>,
    pl: Seq<u8>,
    ext: Seq<bool>,
)
    requires
        257 <= nl <= 288,
        1 <= no <= 32,
        4 <= np <= 19,
        items_valid(its),
        expand(its).len() == nl + no,
        emit::code_ok(pl),
        pl.len() == 19,
        forall|s: int| 0 <= s < 19 ==> #[trigger] pl[s] <= 7,
        forall|s: int| 0 <= s < 19 && #[trigger] sym_count(its, s) > 0 ==> pl[s] > 0,
        forall|k: int|
            np <= k < 19 ==> pl[#[trigger] DEFLATE_PRECODE_LENS_PERMUTATION@[k] as int] == 0,
        codes::decodable(expand(its).take(nl)),
        codes::decodable(expand(its).skip(nl)),
    ensures
        ({
            let hb = header_bits(last, nl, no, np, its, pl);
            let bb = b + hb + ext;
            let p = b.len() as int;
            &&& hb.len() == 17 + 3 * np + items_cost(its, pl)
            &&& bb[p] == last
            &&& hb[0] == last
            &&& bits::le_val(bb, p + 1, 2) == 2
            &&& stream::dynamic_header(bb, p + 3) == Some(
                ((p + hb.len()) as int, expand(its).take(nl), expand(its).skip(nl)),
            )
        }),
{
    let hd = fixed_bits(last, nl, no, np);
    let f6 = field_bits(pl, np as nat);
    let f7 = item_bits(its, pl);
    let hb = header_bits(last, nl, no, np, its, pl);
    let bb = b + hb + ext;
    let p = b.len() as int;
    lemma_field_bits_len(pl, np as nat);
    lemma_fixed_read(b, last, nl, no, np, f6 + f7 + ext);
    assert(bb =~= b + hd + (f6 + f7 + ext));
    assert(hb[0] == hd[0]);
    assert(stream::precode_lens(bb, p + 3 + 14, np, 19) == pl) by {
        assert(bb =~= (b + hd) + f6 + (f7 + ext));
        lemma_precode_read(b + hd, pl, np as nat, f7 + ext);
    }
    assert(stream::read_lens(bb, pl, p + 3 + 14 + 3 * np, Seq::empty(), nl + no) == Some(
        ((p + hb.len()) as int, expand(its)),
    ) && f7.len() == items_cost(its, pl)) by {
        assert(bb =~= (b + hd + f6) + f7 + ext);
        lemma_items_read(b + hd + f6, its, pl, nl + no, ext);
    }
}

/// The item at place `k` is valid and counted.
pub proof fn lemma_item_at(its: Seq<u32>, k: int)
    requires
        items_valid(its),
        0 <= k < its.len(),
    ensures
        item_sym(its[k]) < 19,
        item_extra(its[k]) < pow2(EXTRA_PRECODE_BITS@[item_sym(its[k])] as nat),
        sym_count(its, item_sym(its[k])) > 0,
    decreases its.len(),
{
    if k < its.len() - 1 {
        lemma_item_at(its.drop_last(), k);
        assert(its.drop_last()[k] == its[k]);
    } else {
        lemma_counts_bound(its.drop_last());
        assert(sym_count(its.drop_last(), item_sym(its.last())) >= 0);
    }
}

/// How many runs of equal lengths there are from `p` on, if one begins there.
pub open spec fn runs_from(lens: Seq<u8>, p: int) -> int
    decreases lens.len() - p,
{
    if p >= lens.len() {
        0
    } else {
        runs_from(lens, p + 1) + if p + 1 < lens.len() && lens[p + 1] == lens[p] {
            0int
        } else {
            1
        }
    }
}

proof fn lemma_copies_len(len: int, r: int)
    ensures
        copies(len, r).len() == if r <= 0 {
            0
        } else {
            r
        },
    decreases r,
{
    if r > 0 {
        lemma_copies_len(len, r - 1);
    }
}

/// A run of zeros takes one item for each 138 of them, and no more than two others.
proof fn lemma_zeros_len(r: int)
    requires
        0 <= r,
    ensures
        zeros_18(r, PrecodeFlags::all_codes()).len() <= r / 138 + 2,
        r < 138 ==> zeros_17(r, PrecodeFlags::all_codes()).len() <= r / 10 + 2,
    decreases r,
{
    let f = PrecodeFlags::all_codes();
    lemma_copies_len(0, r);
    if r >= 138 {
        lemma_zeros_len(r - 138);
    } else if r >= 11 {
        lemma_zeros_len(0);
        assert(zeros_18(0, f) == zeros_17(0, f));
    }
    if 10 <= r < 138 {
        lemma_zeros_len(r - 10);
    } else if 3 <= r < 10 {
        lemma_zeros_len(0);
        lemma_copies_len(0, 0);
        assert(zeros_17(0, f).len() == 0);
    }
}

/// A run of another length takes one item for each six of them, and no more than three others.
proof fn lemma_repeats_len(len: int, r: int)
    requires
        0 <= r,
    ensures
        repeats_16(len, r).len() <= r / 6 + 2,
    decreases r,
{
    lemma_copies_len(len, r);
    if r >= 6 {
        lemma_repeats_len(len, r - 6);
    } else if r >= 3 {
        lemma_copies_len(len, 0);
        assert(repeats_16(len, 0).len() == 0);
    }
}

/// With all codes for runs, equal lengths are packed: each run takes no more than three items,
/// and one more for each six lengths in it, or for each 138 zeros.
pub proof fn law_runs_are_packed(lens: Seq<u8>, p: int)
    requires
        0 <= p <= lens.len(),
    ensures
        6 * packed_from(lens, p, PrecodeFlags::all_codes()).len() <= 18 * runs_from(lens, p) + (
        lens.len() - p),
        (forall|i: int| p <= i < lens.len() ==> #[trigger] lens[i] == 0) ==> packed_from(
            lens,
            p,
            PrecodeFlags::all_codes(),
        ).len() <= (lens.len() - p) / 138 + 2,
    decreases lens.len() - p,
{
    let f = PrecodeFlags::all_codes();
    if p < lens.len() {
        let e = run_end(lens, p, p + 1);
        lemma_run_of(lens, p, p + 1);
        lemma_runs_skip(lens, p, e);
        law_runs_are_packed(lens, e);
        let r = e - p;
        let its = run_items(lens[p] as int, r, f);
        lemma_zeros_len(r);
        lemma_copies_len(lens[p] as int, r);
        if lens[p] != 0 && r >= 4 {
            lemma_repeats_len(lens[p] as int, r - 1);
        }
        assert(6 * its.len() <= 18 + r);
        assert(packed_from(lens, p, f).len() == its.len() + packed_from(lens, e, f).len());
        if forall|i: int| p <= i < lens.len() ==> #[trigger] lens[i] == 0 {
            if e < lens.len() {
                assert(lens[e] == 0);
            }
            assert(packed_from(lens, e, f).len() == 0);
        }
    }
}

/// A run ends where the lengths change.
proof fn lemma_run_of(lens: Seq<u8>, p: int, e: int)
    requires
        0 <= p < e <= lens.len(),
        forall|i: int| p <= i < e ==> #[trigger] lens[i] == lens[p],
    ensures
        ({
            let x = run_end(lens, p, e);
            &&& e <= x <= lens.len()
            &&& forall|i: int| p <= i < x ==> #[trigger] lens[i] == lens[p]
            &&& x < lens.len() ==> lens[x] != lens[p]
        }),
    decreases lens.len() - e,
{
    if e < lens.len() && lens[e] == lens[p] {
        lemma_run_of(lens, p, e + 1);
    }
}

/// A run counts once.
proof fn lemma_runs_skip(lens: Seq<u8>, p: int, e: int)
    requires
        0 <= p < e <= lens.len(),
        forall|i: int| p <= i < e ==> #[trigger] lens[i] == lens[e - 1],
        e < lens.len() ==> lens[e] != lens[e - 1],
    ensures
        runs_from(lens, p) == runs_from(lens, e) + 1,
    decreases e - p,
{
    if p + 1 < e {
        lemma_runs_skip(lens, p + 1, e);
        assert(lens[p] == lens[e - 1] && lens[p + 1] == lens[e - 1]);
    }
}

/// A run is packed alike where only what does not matter without code 16 differs.
proof fn lemma_packed_alike(lens: Seq<u8>, p: int, f: PrecodeFlags, g: PrecodeFlags)
    requires
        f.use_17 == g.use_17,
        f.use_18 == g.use_18,
        !f.use_16,
        !g.use_16,
    ensures
        packed_from(lens, p, f) == packed_from(lens, p, g),
    decreases lens.len() - p,
{
    let e = run_end(lens, p, p + 1);
    if !(p >= lens.len() || e <= p || e > lens.len()) {
        lemma_zeros_alike(e - p, f, g);
        lemma_packed_alike(lens, e, f, g);
    }
}

proof fn lemma_zeros_alike(r: int, f: PrecodeFlags, g: PrecodeFlags)
    requires
        f.use_17 == g.use_17,
        f.use_18 == g.use_18,
    ensures
        zeros_18(r, f) == zeros_18(r, g),
        zeros_17(r, f) == zeros_17(r, g),
    decreases r,
{
    if r >= 11 {
        lemma_zeros_alike(
            r - if r < 138 {
                r
            } else {
                138
            },
            f,
            g,
        );
    }
    if r >= 3 {
        lemma_zeros_alike(
            r - if r < 10 {
                r
            } else {
                10
            },
            f,
            g,
        );
    }
}

/// No way to pack lengths is lost by leaving out flags that are not valid: there are valid
/// ones that pack all lengths alike, and they are among the bitmasks.
pub proof fn law_valid_flags_suffice(f: PrecodeFlags) -> (m: int)
    ensures
        0 <= m < 32,
        flags_of(m).valid(),
        forall|lens: Seq<u8>| #[trigger]
            packed_from(lens, 0, flags_of(m)) == packed_from(lens, 0, f),
{
    lemma2_to64();
    let m = (if f.use_16 {
        1int
    } else {
        0
    }) + (if f.use_17 {
        2int
    } else {
        0
    }) + (if f.use_18 {
        4int
    } else {
        0
    }) + (if f.use_16 && f.fuse_7 {
        8int
    } else {
        0
    }) + (if f.use_16 && f.fuse_8 {
        16int
    } else {
        0
    });
    let g = flags_of(m);
    assert(g.use_16 == f.use_16);
    assert(g.use_17 == f.use_17);
    assert(g.use_18 == f.use_18);
    assert(g.fuse_7 == (f.use_16 && f.fuse_7));
    assert(g.fuse_8 == (f.use_16 && f.fuse_8));
    if f.use_16 {
        assert(g == f);
    } else {
        assert forall|lens: Seq<u8>| #[trigger] packed_from(lens, 0, g) == packed_from(lens, 0, f) by {
            lemma_packed_alike(lens, 0, g, f);
        }
    }
    m
}

} // verus!
