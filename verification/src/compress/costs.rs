//! Cost model of the near-optimal parser.
//!
//! Costs are counted in sixteenths of a bit.

use crate::compress::block::DeflateCodes;
use crate::compress::block_split;
use crate::compress::block_split::BlockSplitStats;
use crate::compress::items;
use crate::compress::items::get_length_slot;
use crate::compress::params;
use crate::compress::params::choose_min_match_len;
use crate::constants::{DEFLATE_LENGTH_EXTRA_BITS, DEFLATE_OFFSET_EXTRA_BITS};
use vstd::prelude::*;

verus! {

/// Fixed-point scaling for costs (16 = 4 fractional bits).
pub const BIT_COST: u32 = 16;

/// Cost assigned to symbols with no statistics (literal).
pub const LITERAL_NOSTAT_BITS: u32 = 13;

/// Cost assigned to symbols with no statistics (length).
pub const LENGTH_NOSTAT_BITS: u32 = 13;

/// Cost assigned to symbols with no statistics (offset).
pub const OFFSET_NOSTAT_BITS: u32 = 10;

/// Cost of a literal where there are few matches, by the number of literals used.
pub const FEW_MATCHES_LIT_COST: [u8; 257] = [
    6, 6, 22, 32, 38, 43, 48, 51, 54, 57, 59, 61, 64, 65, 67, 69,
    70, 72, 73, 74, 75, 76, 77, 79, 80, 80, 81, 82, 83, 84, 85, 85,
    86, 87, 88, 88, 89, 89, 90, 91, 91, 92, 92, 93, 93, 94, 95, 95,
    96, 96, 96, 97, 97, 98, 98, 99, 99, 99, 100, 100, 101, 101, 101, 102,
    102, 102, 103, 103, 104, 104, 104, 105, 105, 105, 105, 106, 106, 106, 107, 107,
    107, 108, 108, 108, 108, 109, 109, 109, 109, 110, 110, 110, 111, 111, 111, 111,
    112, 112, 112, 112, 112, 113, 113, 113, 113, 114, 114, 114, 114, 114, 115, 115,
    115, 115, 115, 116, 116, 116, 116, 116, 117, 117, 117, 117, 117, 118, 118, 118,
    118, 118, 118, 119, 119, 119, 119, 119, 120, 120, 120, 120, 120, 120, 121, 121,
    121, 121, 121, 121, 121, 122, 122, 122, 122, 122, 122, 123, 123, 123, 123, 123,
    123, 123, 124, 124, 124, 124, 124, 124, 124, 125, 125, 125, 125, 125, 125, 125,
    125, 126, 126, 126, 126, 126, 126, 126, 127, 127, 127, 127, 127, 127, 127, 127,
    128, 128, 128, 128, 128, 128, 128, 128, 128, 129, 129, 129, 129, 129, 129, 129,
    129, 129, 130, 130, 130, 130, 130, 130, 130, 130, 130, 131, 131, 131, 131, 131,
    131, 131, 131, 131, 131, 132, 132, 132, 132, 132, 132, 132, 132, 132, 132, 133,
    133, 133, 133, 133, 133, 133, 133, 133, 133, 134, 134, 134, 134, 134, 134, 134,
    134,
];

/// Cost of a literal where matches and literals are balanced, by the number of
/// literals used. Where there are many matches, it is one bit more.
pub const NEUTRAL_LIT_COST: [u8; 257] = [
    16, 16, 32, 41, 48, 53, 57, 60, 64, 66, 69, 71, 73, 75, 76, 78,
    80, 81, 82, 83, 85, 86, 87, 88, 89, 90, 91, 92, 92, 93, 94, 95,
    96, 96, 97, 98, 98, 99, 99, 100, 101, 101, 102, 102, 103, 103, 104, 104,
    105, 105, 106, 106, 107, 107, 108, 108, 108, 109, 109, 110, 110, 110, 111, 111,
    112, 112, 112, 113, 113, 113, 114, 114, 114, 115, 115, 115, 115, 116, 116, 116,
    117, 117, 117, 118, 118, 118, 118, 119, 119, 119, 119, 120, 120, 120, 120, 121,
    121, 121, 121, 122, 122, 122, 122, 122, 123, 123, 123, 123, 124, 124, 124, 124,
    124, 125, 125, 125, 125, 125, 126, 126, 126, 126, 126, 127, 127, 127, 127, 127,
    128, 128, 128, 128, 128, 128, 129, 129, 129, 129, 129, 129, 130, 130, 130, 130,
    130, 130, 131, 131, 131, 131, 131, 131, 131, 132, 132, 132, 132, 132, 132, 133,
    133, 133, 133, 133, 133, 133, 134, 134, 134, 134, 134, 134, 134, 134, 135, 135,
    135, 135, 135, 135, 135, 135, 136, 136, 136, 136, 136, 136, 136, 136, 137, 137,
    137, 137, 137, 137, 137, 137, 138, 138, 138, 138, 138, 138, 138, 138, 138, 139,
    139, 139, 139, 139, 139, 139, 139, 139, 140, 140, 140, 140, 140, 140, 140, 140,
    140, 141, 141, 141, 141, 141, 141, 141, 141, 141, 141, 142, 142, 142, 142, 142,
    142, 142, 142, 142, 142, 142, 143, 143, 143, 143, 143, 143, 143, 143, 143, 143,
    144,
];

/// The default cost of a literal: `kind` is 0 where there are few matches, 1 where
/// matches and literals are balanced, and 2 where there are many matches.
pub open spec fn default_lit_cost(kind: int, used: int) -> int {
    if kind == 0 {
        FEW_MATCHES_LIT_COST@[used] as int
    } else if kind == 1 {
        NEUTRAL_LIT_COST@[used] as int
    } else {
        NEUTRAL_LIT_COST@[used] + 16
    }
}

/// The default cost of a length symbol.
pub open spec fn default_len_sym_cost(kind: int) -> int {
    if kind == 0 {
        109
    } else if kind == 1 {
        93
    } else {
        84
    }
}

/// The cost of a length, given that of its symbol.
pub open spec fn length_cost(len: int, len_sym_cost: int) -> int {
    len_sym_cost + 16 * DEFLATE_LENGTH_EXTRA_BITS@[items::length_slot_of(len)]
}

/// The default cost of an offset slot: all slots are equally likely.
pub open spec fn slot_cost(slot: int) -> int {
    78 + 16 * DEFLATE_OFFSET_EXTRA_BITS@[slot]
}

/// Cost model for the near-optimal parser.
#[derive(Clone, Copy)]
pub struct DeflateCosts {
    /// Cost to output each possible literal.
    pub literal: [u32; 256],
    /// Cost to output each possible match length (only 3..=258 used).
    pub length: [u32; 259],
    /// Cost to output a match offset of each possible offset slot.
    pub offset_slot: [u32; 32],
}

impl Default for DeflateCosts {
    fn default() -> (r: Self)
        ensures
            r.wf(),
    {
        DeflateCosts { literal: [0u32; 256], length: [0u32; 259], offset_slot: [0u32; 32] }
    }
}

impl DeflateCosts {
    /// No cost is so large that a path could not be summed.
    pub open spec fn wf(&self) -> bool {
        &&& forall|i: int| 0 <= i < 256 ==> #[trigger] self.literal@[i] <= 600
        &&& forall|i: int| 0 <= i < 259 ==> #[trigger] self.length@[i] <= 600
        &&& forall|i: int| 0 <= i < 32 ==> #[trigger] self.offset_slot@[i] <= 600
    }

    /// The costs are the default ones.
    pub open spec fn is_default(&self, lit_cost: int, len_sym_cost: int) -> bool {
        &&& forall|i: int| 0 <= i < 256 ==> #[trigger] self.literal@[i] == lit_cost
        &&& forall|i: int|
            3 <= i <= 258 ==> #[trigger] self.length@[i] == length_cost(i, len_sym_cost)
        &&& forall|i: int| 0 <= i < 30 ==> #[trigger] self.offset_slot@[i] == slot_cost(i)
    }
}

/// The number of bits of a symbol, or a guess where it has no codeword.
pub open spec fn bits_of(len: u8, nostat: int) -> int {
    if len != 0 {
        len as int
    } else {
        nostat
    }
}

/// The costs are the numbers of bits that codes give.
pub open spec fn costs_of(costs: DeflateCosts, ll: Seq<u8>, ol: Seq<u8>) -> bool {
    &&& forall|i: int| 0 <= i < 256 ==> #[trigger] costs.literal@[i] == 16 * bits_of(ll[i], 13)
    &&& forall|i: int|
        3 <= i <= 258 ==> #[trigger] costs.length@[i] == 16 * (bits_of(
            ll[257 + items::length_slot_of(i)],
            13,
        ) + DEFLATE_LENGTH_EXTRA_BITS@[items::length_slot_of(i)])
    &&& forall|i: int|
        0 <= i < 30 ==> #[trigger] costs.offset_slot@[i] == 16 * (bits_of(ol[i], 10)
            + DEFLATE_OFFSET_EXTRA_BITS@[i])
}

/// Set costs from actual Huffman code lengths.
pub fn set_costs_from_codes(costs: &mut DeflateCosts, codes: &DeflateCodes)
    requires
        old(costs).wf(),
        codes.wf(),
    ensures
        final(costs).wf(),
        costs_of(*final(costs), codes.lens_litlen@, codes.lens_offset@),
{
    let ghost ll = codes.lens_litlen@;
    let ghost ol = codes.lens_offset@;
    let mut i: usize = 0;
    while i < 256
        invariant
            i <= 256,
            codes.wf(),
            ll == codes.lens_litlen@,
            costs.wf(),
            forall|j: int| 0 <= j < i ==> #[trigger] costs.literal@[j] == 16 * bits_of(ll[j], 13),
        decreases 256 - i,
    {
        assert(ll[i as int] <= 15);
        let bits: u32 = if codes.lens_litlen[i] != 0 {
            codes.lens_litlen[i] as u32
        } else {
            LITERAL_NOSTAT_BITS
        };
        costs.literal[i] = bits * BIT_COST;
        i = i + 1;
    }
    i = 3;
    while i < 259
        invariant
            3 <= i <= 259,
            codes.wf(),
            ll == codes.lens_litlen@,
            costs.wf(),
            forall|j: int| 0 <= j < 256 ==> #[trigger] costs.literal@[j] == 16 * bits_of(ll[j], 13),
            forall|j: int|
                3 <= j < i ==> #[trigger] costs.length@[j] == 16 * (bits_of(
                    ll[257 + items::length_slot_of(j)],
                    13,
                ) + DEFLATE_LENGTH_EXTRA_BITS@[items::length_slot_of(j)]),
        decreases 259 - i,
    {
        let slot: usize = get_length_slot(i as u32) as usize;
        assert(ll[257 + slot] <= 15);
        assert(DEFLATE_LENGTH_EXTRA_BITS@[slot as int] <= 5);
        let bits: u32 = if codes.lens_litlen[257 + slot] != 0 {
            codes.lens_litlen[257 + slot] as u32
        } else {
            LENGTH_NOSTAT_BITS
        };
        costs.length[i] = (bits + DEFLATE_LENGTH_EXTRA_BITS[slot] as u32) * BIT_COST;
        i = i + 1;
    }
    i = 0;
    while i < 30
        invariant
            i <= 30,
            codes.wf(),
            ll == codes.lens_litlen@,
            ol == codes.lens_offset@,
            costs.wf(),
            forall|j: int| 0 <= j < 256 ==> #[trigger] costs.literal@[j] == 16 * bits_of(ll[j], 13),
            forall|j: int|
                3 <= j <= 258 ==> #[trigger] costs.length@[j] == 16 * (bits_of(
                    ll[257 + items::length_slot_of(j)],
                    13,
                ) + DEFLATE_LENGTH_EXTRA_BITS@[items::length_slot_of(j)]),
            forall|j: int|
                0 <= j < i ==> #[trigger] costs.offset_slot@[j] == 16 * (bits_of(ol[j], 10)
                    + DEFLATE_OFFSET_EXTRA_BITS@[j]),
        decreases 30 - i,
    {
        assert(ol[i as int] <= 15);
        assert(DEFLATE_OFFSET_EXTRA_BITS@[i as int] <= 14);
        let bits: u32 = if codes.lens_offset[i] != 0 {
            codes.lens_offset[i] as u32
        } else {
            OFFSET_NOSTAT_BITS
        };
        costs.offset_slot[i] = (bits + DEFLATE_OFFSET_EXTRA_BITS[i] as u32) * BIT_COST;
        i = i + 1;
    }
}

/// Cost for a given match length using default costs.
#[inline]
fn default_length_cost(len: u32, len_sym_cost: u32) -> (r: u32)
    requires
        3 <= len <= 258,
        len_sym_cost <= 255,
    ensures
        r == length_cost(len as int, len_sym_cost as int),
        r <= 600,
{
    let slot: usize = get_length_slot(len) as usize;
    assert(DEFLATE_LENGTH_EXTRA_BITS@[slot as int] <= 5);
    len_sym_cost + DEFLATE_LENGTH_EXTRA_BITS[slot] as u32 * BIT_COST
}

/// Cost for a given offset slot using default costs.
#[inline]
fn default_offset_slot_cost(slot: usize) -> (r: u32)
    requires
        slot < 30,
    ensures
        r == slot_cost(slot as int),
        r <= 600,
{
    assert(DEFLATE_OFFSET_EXTRA_BITS@[slot as int] <= 14);
    // All offset symbols equally probable: -log2(1/30) * BIT_COST
    let offset_sym_cost: u32 = 4 * BIT_COST + (907 * BIT_COST) / 1000;
    offset_sym_cost + DEFLATE_OFFSET_EXTRA_BITS[slot] as u32 * BIT_COST
}

/// A cost, moved towards a default value: by a quarter, a half, five eighths or
/// three quarters of the way.
pub open spec fn blended(cost: int, default_cost: int, change_amount: int) -> int {
    if change_amount == 0 {
        (default_cost + 3 * cost) / 4
    } else if change_amount == 1 {
        (default_cost + cost) / 2
    } else if change_amount == 2 {
        (5 * default_cost + 3 * cost) / 8
    } else {
        (3 * default_cost + cost) / 4
    }
}

/// Blend a cost toward a default value based on change_amount.
#[inline]
fn adjust_cost(cost: u32, default_cost: u32, change_amount: u32) -> (r: u32)
    requires
        cost <= 600,
        default_cost <= 600,
    ensures
        r == blended(cost as int, default_cost as int, change_amount as int),
        r <= 600,
{
    if change_amount == 0 {
        (default_cost + 3 * cost) / 4
    } else if change_amount == 1 {
        (default_cost + cost) / 2
    } else if change_amount == 2 {
        (5 * default_cost + 3 * cost) / 8
    } else {
        (3 * default_cost + cost) / 4
    }
}

/// All costs are those of `old` moved towards the default ones.
pub open spec fn adjusted(
    old: DeflateCosts,
    new: DeflateCosts,
    lit_cost: int,
    len_sym_cost: int,
    change_amount: int,
) -> bool {
    &&& forall|i: int|
        0 <= i < 256 ==> #[trigger] new.literal@[i] == blended(
            old.literal@[i] as int,
            lit_cost,
            change_amount,
        )
    &&& forall|i: int|
        3 <= i <= 258 ==> #[trigger] new.length@[i] == blended(
            old.length@[i] as int,
            length_cost(i, len_sym_cost),
            change_amount,
        )
    &&& forall|i: int|
        0 <= i < 30 ==> #[trigger] new.offset_slot@[i] == blended(
            old.offset_slot@[i] as int,
            slot_cost(i),
            change_amount,
        )
}

/// Adjust all costs toward default values.
fn adjust_costs_impl(
    costs: &mut DeflateCosts,
    lit_cost: u32,
    len_sym_cost: u32,
    change_amount: u32,
)
    requires
        old(costs).wf(),
        lit_cost <= 300,
        len_sym_cost <= 255,
    ensures
        final(costs).wf(),
        adjusted(
            *old(costs),
            *final(costs),
            lit_cost as int,
            len_sym_cost as int,
            change_amount as int,
        ),
{
    let ghost c0 = *costs;
    let mut i: usize = 0;
    while i < 256
        invariant
            i <= 256,
            c0 == *old(costs),
            costs.wf(),
            lit_cost <= 300,
            costs.length@ == c0.length@,
            costs.offset_slot@ == c0.offset_slot@,
            forall|j: int|
                0 <= j < i ==> #[trigger] costs.literal@[j] == blended(
                    c0.literal@[j] as int,
                    lit_cost as int,
                    change_amount as int,
                ),
            forall|j: int| i <= j < 256 ==> #[trigger] costs.literal@[j] == c0.literal@[j],
        decreases 256 - i,
    {
        assert(costs.literal@[i as int] <= 600);
        costs.literal[i] = adjust_cost(costs.literal[i], lit_cost, change_amount);
        i = i + 1;
    }
    i = 3;
    while i < 259
        invariant
            3 <= i <= 259,
            c0 == *old(costs),
            costs.wf(),
            len_sym_cost <= 255,
            costs.offset_slot@ == c0.offset_slot@,
            forall|j: int|
                0 <= j < 256 ==> #[trigger] costs.literal@[j] == blended(
                    c0.literal@[j] as int,
                    lit_cost as int,
                    change_amount as int,
                ),
            forall|j: int|
                3 <= j < i ==> #[trigger] costs.length@[j] == blended(
                    c0.length@[j] as int,
                    length_cost(j, len_sym_cost as int),
                    change_amount as int,
                ),
            forall|j: int| i <= j < 259 ==> #[trigger] costs.length@[j] == c0.length@[j],
        decreases 259 - i,
    {
        assert(costs.length@[i as int] <= 600);
        costs.length[i] = adjust_cost(
            costs.length[i],
            default_length_cost(i as u32, len_sym_cost),
            change_amount,
        );
        i = i + 1;
    }
    i = 0;
    while i < 30
        invariant
            i <= 30,
            c0 == *old(costs),
            costs.wf(),
            forall|j: int|
                0 <= j < 256 ==> #[trigger] costs.literal@[j] == blended(
                    c0.literal@[j] as int,
                    lit_cost as int,
                    change_amount as int,
                ),
            forall|j: int|
                3 <= j <= 258 ==> #[trigger] costs.length@[j] == blended(
                    c0.length@[j] as int,
                    length_cost(j, len_sym_cost as int),
                    change_amount as int,
                ),
            forall|j: int|
                0 <= j < i ==> #[trigger] costs.offset_slot@[j] == blended(
                    c0.offset_slot@[j] as int,
                    slot_cost(j),
                    change_amount as int,
                ),
            forall|j: int| i <= j < 32 ==> #[trigger] costs.offset_slot@[j] == c0.offset_slot@[j],
        decreases 30 - i,
    {
        assert(costs.offset_slot@[i as int] <= 600);
        costs.offset_slot[i] = adjust_cost(
            costs.offset_slot[i],
            default_offset_slot_cost(i),
            change_amount,
        );
        i = i + 1;
    }
}

/// Set all costs to default values.
pub fn set_default_costs(costs: &mut DeflateCosts, lit_cost: u32, len_sym_cost: u32)
    requires
        old(costs).wf(),
        lit_cost <= 300,
        len_sym_cost <= 255,
    ensures
        final(costs).wf(),
        final(costs).is_default(lit_cost as int, len_sym_cost as int),
{
    let mut i: usize = 0;
    while i < 256
        invariant
            i <= 256,
            costs.wf(),
            lit_cost <= 300,
            forall|j: int| 0 <= j < i ==> #[trigger] costs.literal@[j] == lit_cost,
        decreases 256 - i,
    {
        costs.literal[i] = lit_cost;
        i = i + 1;
    }
    i = 3;
    while i < 259
        invariant
            3 <= i <= 259,
            costs.wf(),
            len_sym_cost <= 255,
            forall|j: int| 0 <= j < 256 ==> #[trigger] costs.literal@[j] == lit_cost,
            forall|j: int|
                3 <= j < i ==> #[trigger] costs.length@[j] == length_cost(j, len_sym_cost as int),
        decreases 259 - i,
    {
        costs.length[i] = default_length_cost(i as u32, len_sym_cost);
        i = i + 1;
    }
    i = 0;
    while i < 30
        invariant
            i <= 30,
            costs.wf(),
            forall|j: int| 0 <= j < 256 ==> #[trigger] costs.literal@[j] == lit_cost,
            forall|j: int|
                3 <= j <= 258 ==> #[trigger] costs.length@[j] == length_cost(
                    j,
                    len_sym_cost as int,
                ),
            forall|j: int| 0 <= j < i ==> #[trigger] costs.offset_slot@[j] == slot_cost(j),
        decreases 30 - i,
    {
        costs.offset_slot[i] = default_offset_slot_cost(i);
        i = i + 1;
    }
}

/// How far the first `n` types of the observations are from those of the previous
/// block.
pub open spec fn block_delta(
    prev: Seq<int>,
    prev_num: int,
    now: Seq<int>,
    num: int,
    n: nat,
) -> int
    decreases n,
{
    if n == 0 {
        0
    } else {
        block_delta(prev, prev_num, now, num, (n - 1) as nat) + block_split::gap(
            prev[n - 1] * num,
            now[n - 1] * prev_num,
        )
    }
}

/// The numbers of observations of each type.
pub open spec fn type_counts(s: Seq<u32>) -> Seq<int> {
    Seq::new(10, |i: int| s[i] as int)
}

/// What a difference `d` from the previous block, measured against `cutoff`, does
/// to the costs: they are moved towards the default ones, the further the larger
/// it is, or all the way.
pub open spec fn costs_moved(
    old: DeflateCosts,
    new: DeflateCosts,
    d: int,
    cutoff: int,
    lit_cost: int,
    len_sym_cost: int,
) -> bool {
    if d > 3 * cutoff {
        new.is_default(lit_cost, len_sym_cost)
    } else if 4 * d > 9 * cutoff {
        adjusted(old, new, lit_cost, len_sym_cost, 3)
    } else if 2 * d > 3 * cutoff {
        adjusted(old, new, lit_cost, len_sym_cost, 2)
    } else if 2 * d > cutoff {
        adjusted(old, new, lit_cost, len_sym_cost, 1)
    } else {
        adjusted(old, new, lit_cost, len_sym_cost, 0)
    }
}

/// What literals, match lengths and offset slots cost.
#[verifier::ext_equal]
pub struct Prices {
    pub lit: Seq<int>,
    pub len: Seq<int>,
    pub slot: Seq<int>,
}

/// The prices that codes give.
pub open spec fn code_prices(ll: Seq<u8>, ol: Seq<u8>) -> Prices {
    Prices {
        lit: Seq::new(256, |i: int| 16 * bits_of(ll[i], 13)),
        len: Seq::new(
            259,
            |i: int|
                if i < 3 {
                    0
                } else {
                    16 * (bits_of(ll[257 + items::length_slot_of(i)], 13)
                        + DEFLATE_LENGTH_EXTRA_BITS@[items::length_slot_of(i)])
                },
        ),
        slot: Seq::new(30, |i: int| 16 * (bits_of(ol[i], 10) + DEFLATE_OFFSET_EXTRA_BITS@[i])),
    }
}

/// The default prices.
pub open spec fn default_prices(lit_cost: int, len_sym_cost: int) -> Prices {
    Prices {
        lit: Seq::new(256, |i: int| lit_cost),
        len: Seq::new(
            259,
            |i: int|
                if i < 3 {
                    0
                } else {
                    length_cost(i, len_sym_cost)
                },
        ),
        slot: Seq::new(30, |i: int| slot_cost(i)),
    }
}

/// Prices moved towards the default ones.
pub open spec fn blended_prices(p: Prices, lit_cost: int, len_sym_cost: int, amount: int) -> Prices {
    Prices {
        lit: Seq::new(256, |i: int| blended(p.lit[i], lit_cost, amount)),
        len: Seq::new(
            259,
            |i: int|
                if i < 3 {
                    0
                } else {
                    blended(p.len[i], length_cost(i, len_sym_cost), amount)
                },
        ),
        slot: Seq::new(30, |i: int| blended(p.slot[i], slot_cost(i), amount)),
    }
}

/// Prices moved towards the default ones, the further the larger the difference `d` from
/// the previous block is, measured against `cutoff`.
pub open spec fn moved_prices(
    p: Prices,
    d: int,
    cutoff: int,
    lit_cost: int,
    len_sym_cost: int,
) -> Prices {
    if d > 3 * cutoff {
        default_prices(lit_cost, len_sym_cost)
    } else if 4 * d > 9 * cutoff {
        blended_prices(p, lit_cost, len_sym_cost, 3)
    } else if 2 * d > 3 * cutoff {
        blended_prices(p, lit_cost, len_sym_cost, 2)
    } else if 2 * d > cutoff {
        blended_prices(p, lit_cost, len_sym_cost, 1)
    } else {
        blended_prices(p, lit_cost, len_sym_cost, 0)
    }
}

impl DeflateCosts {
    /// What the costs say.
    pub open spec fn view(&self) -> Prices {
        Prices {
            lit: Seq::new(256, |i: int| self.literal@[i] as int),
            len: Seq::new(
                259,
                |i: int|
                    if i < 3 {
                        0
                    } else {
                        self.length@[i] as int
                    },
            ),
            slot: Seq::new(30, |i: int| self.offset_slot@[i] as int),
        }
    }
}

/// Costs that are the numbers of bits of codes.
pub proof fn lemma_code_prices(costs: DeflateCosts, ll: Seq<u8>, ol: Seq<u8>)
    requires
        costs_of(costs, ll, ol),
    ensures
        costs@ == code_prices(ll, ol),
{
    assert(costs@ =~= code_prices(ll, ol));
}

/// Costs that are the default ones.
pub proof fn lemma_default_prices(costs: DeflateCosts, lit_cost: int, len_sym_cost: int)
    requires
        costs.is_default(lit_cost, len_sym_cost),
    ensures
        costs@ == default_prices(lit_cost, len_sym_cost),
{
    assert(costs@ =~= default_prices(lit_cost, len_sym_cost));
}

proof fn lemma_blended_prices(
    a: DeflateCosts,
    b: DeflateCosts,
    lit_cost: int,
    len_sym_cost: int,
    amount: int,
)
    requires
        adjusted(a, b, lit_cost, len_sym_cost, amount),
    ensures
        b@ == blended_prices(a@, lit_cost, len_sym_cost, amount),
{
    assert(b@ =~= blended_prices(a@, lit_cost, len_sym_cost, amount));
}

/// Costs that were moved towards the default ones.
pub proof fn lemma_moved_prices(
    a: DeflateCosts,
    b: DeflateCosts,
    d: int,
    cutoff: int,
    lit_cost: int,
    len_sym_cost: int,
)
    requires
        costs_moved(a, b, d, cutoff, lit_cost, len_sym_cost),
    ensures
        b@ == moved_prices(a@, d, cutoff, lit_cost, len_sym_cost),
{
    if d > 3 * cutoff {
        lemma_default_prices(b, lit_cost, len_sym_cost);
    } else if 4 * d > 9 * cutoff {
        lemma_blended_prices(a, b, lit_cost, len_sym_cost, 3);
    } else if 2 * d > 3 * cutoff {
        lemma_blended_prices(a, b, lit_cost, len_sym_cost, 2);
    } else if 2 * d > cutoff {
        lemma_blended_prices(a, b, lit_cost, len_sym_cost, 1);
    } else {
        lemma_blended_prices(a, b, lit_cost, len_sym_cost, 0);
    }
}

/// Adjust costs based on how different the current block is from the previous.
pub fn adjust_costs(
    costs: &mut DeflateCosts,
    prev_observations: &[u32; 10],
    prev_num_observations: u32,
    split_stats: &BlockSplitStats,
    lit_cost: u32,
    len_sym_cost: u32,
)
    requires
        old(costs).wf(),
        lit_cost <= 300,
        len_sym_cost <= 255,
        split_stats.wf(),
        split_stats.total() <= 0x40_0000,
        prev_num_observations <= 0x40_0000,
        forall|i: int| 0 <= i < 10 ==> #[trigger] prev_observations@[i] <= prev_num_observations,
    ensures
        final(costs).wf(),
        costs_moved(
            *old(costs),
            *final(costs),
            block_delta(
                type_counts(prev_observations@),
                prev_num_observations as int,
                type_counts(split_stats.observations@),
                split_stats.num_observations as int,
                10,
            ),
            prev_num_observations * split_stats.num_observations * 200 / 512,
            lit_cost as int,
            len_sym_cost as int,
        ),
{
    let mut total_delta: u64 = 0;
    let pn: u64 = prev_num_observations as u64;
    let sn: u64 = split_stats.num_observations as u64;
    let mut i: usize = 0;
    while i < 10
        invariant
            i <= 10,
            pn == prev_num_observations,
            sn == split_stats.num_observations,
            pn <= 0x40_0000,
            sn <= 0x40_0000,
            split_stats.wf(),
            forall|j: int| 0 <= j < 10 ==> #[trigger] prev_observations@[j] <= prev_num_observations,
            total_delta == block_delta(
                type_counts(prev_observations@),
                prev_num_observations as int,
                type_counts(split_stats.observations@),
                split_stats.num_observations as int,
                i as nat,
            ),
            total_delta <= i * 0x1000_0000_0000,
        decreases 10 - i,
    {
        let a: u64 = prev_observations[i] as u64;
        let b: u64 = split_stats.observations[i] as u64;
        assert(prev_observations@[i as int] <= pn);
        assert(split_stats.observations@[i as int] <= sn);
        assert(0 <= a * sn <= 0x1000_0000_0000) by (nonlinear_arith)
            requires
                0 <= a <= 0x40_0000,
                0 <= sn <= 0x40_0000,
        ;
        assert(0 <= b * pn <= 0x1000_0000_0000) by (nonlinear_arith)
            requires
                0 <= b <= 0x40_0000,
                0 <= pn <= 0x40_0000,
        ;
        let x: u64 = a * sn;
        let y: u64 = b * pn;
        let d: u64 = if x <= y {
            y - x
        } else {
            x - y
        };
        total_delta = total_delta + d;
        i = i + 1;
    }
    assert(0 <= pn * sn <= 0x1000_0000_0000) by (nonlinear_arith)
        requires
            0 <= pn <= 0x40_0000,
            0 <= sn <= 0x40_0000,
    ;
    let cutoff: u64 = pn * sn * 200 / 512;
    if total_delta > 3 * cutoff {
        set_default_costs(costs, lit_cost, len_sym_cost);
    } else if 4 * total_delta > 9 * cutoff {
        adjust_costs_impl(costs, lit_cost, len_sym_cost, 3);
    } else if 2 * total_delta > 3 * cutoff {
        adjust_costs_impl(costs, lit_cost, len_sym_cost, 2);
    } else if 2 * total_delta > cutoff {
        adjust_costs_impl(costs, lit_cost, len_sym_cost, 1);
    } else {
        adjust_costs_impl(costs, lit_cost, len_sym_cost, 0);
    }
}

/// How often byte `b` occurs in the data from `from` on, `n` bytes of it.
pub open spec fn byte_count(h: Seq<u8>, from: int, n: nat, b: int) -> int
    decreases n,
{
    if n == 0 {
        0
    } else {
        byte_count(h, from, (n - 1) as nat, b) + if h[from + n - 1] == b {
            1int
        } else {
            0
        }
    }
}

/// For each byte value, whether it makes up more than a 2048th of the block.
pub open spec fn block_literals(h: Seq<u8>, base: int, n: nat) -> Seq<bool> {
    Seq::new(256, |b: int| byte_count(h, base, n, b) > n / 2048)
}

/// The number of matches of at least `min` and less than `n` bytes.
pub open spec fn match_sum(f: Seq<u32>, min: int, n: int) -> int
    decreases n - min,
{
    if n <= min {
        0
    } else {
        match_sum(f, min, n - 1) + f[n - 1]
    }
}

/// The bytes of a block that are left once those in matches of at least `min` and
/// less than `n` bytes have been taken away, as far as there are any.
pub open spec fn literals_left(f: Seq<u32>, block_length: int, min: int, n: int) -> int
    decreases n - min,
{
    if n <= min {
        block_length
    } else {
        let l = literals_left(f, block_length, min, n - 1);
        if l >= (n - 1) * f[n - 1] {
            l - (n - 1) * f[n - 1]
        } else {
            0
        }
    }
}

/// The number of literals that a block uses, at least one.
pub open spec fn used_count(h: Seq<u8>, base: int, n: nat) -> int {
    let k = params::marked(block_literals(h, base, n), 256) as int;
    if k == 0 {
        1
    } else {
        k
    }
}

/// Whether a block has few or many matches, by what is known of their lengths.
pub open spec fn match_kind(f: Seq<u32>, block_length: int, min: int) -> int {
    let m = match_sum(f, min, 259);
    let l = literals_left(f, block_length, min, 259);
    if m > l {
        2
    } else if m * 4 > l {
        1
    } else {
        0
    }
}

/// Choose default literal and length symbol costs based on data characteristics.
pub fn choose_default_litlen_costs(
    match_len_freqs: &Vec<u32>,
    max_search_depth: u32,
    input: &[u8],
    base: usize,
    block_length: usize,
) -> (r: (u32, u32))
    requires
        base + block_length <= input@.len(),
        block_length <= 0x40_0000,
        match_len_freqs@.len() == 259,
        forall|i: int| 0 <= i < 259 ==> #[trigger] match_len_freqs@[i] <= 0x40_0000,
    ensures
        ({
            let used = used_count(input@, base as int, block_length as nat);
            let kind = match_kind(
                match_len_freqs@,
                block_length as int,
                params::min_match_len(used, max_search_depth as int),
            );
            &&& r.0 == default_lit_cost(kind, used)
            &&& r.1 == default_len_sym_cost(kind)
        }),
        r.0 <= 300,
        r.1 <= 255,
{
    let ghost h = input@;
    let n: usize = input.len();
    let mut counts: [u32; 256] = [0u32; 256];
    let mut i: usize = 0;
    while i < block_length
        invariant
            i <= block_length <= 0x40_0000,
            h == input@,
            n == h.len(),
            base + block_length <= n,
            forall|b: int|
                0 <= b < 256 ==> #[trigger] counts@[b] == byte_count(h, base as int, i as nat, b),
            forall|b: int| 0 <= b < 256 ==> #[trigger] counts@[b] <= i,
        decreases block_length - i,
    {
        let v: u8 = input[base + i];
        let ghost c0 = counts@;
        assert(c0[v as int] <= i);
        counts[v as usize] = counts[v as usize] + 1;
        proof {
            assert forall|b: int| 0 <= b < 256 implies #[trigger] counts@[b] == byte_count(
                h,
                base as int,
                (i + 1) as nat,
                b,
            ) && counts@[b] <= i + 1 by {
                assert(c0[b] == byte_count(h, base as int, i as nat, b));
                assert(c0[b] <= i);
            }
        }
        i = i + 1;
    }
    let cutoff: u32 = (block_length / 2048) as u32;
    let mut used: u32 = 0;
    let ghost marks = block_literals(h, base as int, block_length as nat);
    i = 0;
    while i < 256
        invariant
            i <= 256,
            cutoff == block_length / 2048,
            marks == block_literals(h, base as int, block_length as nat),
            forall|b: int|
                0 <= b < 256 ==> #[trigger] counts@[b] == byte_count(
                    h,
                    base as int,
                    block_length as nat,
                    b,
                ),
            used == params::marked(marks, i as nat),
            used <= i,
        decreases 256 - i,
    {
        assert(marks[i as int] == (counts@[i as int] > cutoff));
        if counts[i] > cutoff {
            used = used + 1;
        }
        i = i + 1;
    }
    if used == 0 {
        used = 1;
    }
    let min_len: u32 = choose_min_match_len(used, max_search_depth);
    let mut match_freq: u64 = 0;
    let mut literal_freq: u64 = block_length as u64;
    let mut k: usize = min_len as usize;
    while k < 259
        invariant
            min_len <= k <= 259,
            match_len_freqs@.len() == 259,
            block_length <= 0x40_0000,
            forall|j: int| 0 <= j < 259 ==> #[trigger] match_len_freqs@[j] <= 0x40_0000,
            match_freq == match_sum(match_len_freqs@, min_len as int, k as int),
            match_freq <= k * 0x40_0000,
            literal_freq == literals_left(
                match_len_freqs@,
                block_length as int,
                min_len as int,
                k as int,
            ),
            literal_freq <= block_length,
        decreases 259 - k,
    {
        let f: u64 = match_len_freqs[k] as u64;
        assert(match_len_freqs@[k as int] <= 0x40_0000);
        assert(0 <= k * f <= 259 * 0x40_0000) by (nonlinear_arith)
            requires
                0 <= k <= 259,
                0 <= f <= 0x40_0000,
        ;
        let bytes: u64 = k as u64 * f;
        match_freq = match_freq + f;
        if literal_freq >= bytes {
            literal_freq = literal_freq - bytes;
        } else {
            literal_freq = 0;
        }
        k = k + 1;
    }
    if match_freq > literal_freq {
        (NEUTRAL_LIT_COST[used as usize] as u32 + 16, 84)
    } else if match_freq * 4 > literal_freq {
        (NEUTRAL_LIT_COST[used as usize] as u32, 93)
    } else {
        (FEW_MATCHES_LIT_COST[used as usize] as u32, 109)
    }
}

/// A cost that is moved stays between itself and the default one, and is moved the further
/// the larger the amount is.
pub proof fn law_blend(cost: int, default_cost: int, amount: int, more: int)
    requires
        0 <= amount <= more <= 3,
    ensures
        cost <= default_cost ==> cost <= blended(cost, default_cost, amount) <= blended(
            cost,
            default_cost,
            more,
        ) <= default_cost,
        default_cost <= cost ==> default_cost <= blended(cost, default_cost, more) <= blended(
            cost,
            default_cost,
            amount,
        ) <= cost,
{
}

/// The more a block differs from the one before it, the nearer its prices are to the default
/// ones.
pub proof fn law_difference_moves(
    p: Prices,
    d: int,
    more: int,
    cutoff: int,
    lit_cost: int,
    len_sym_cost: int,
    b: int,
)
    requires
        0 <= d <= more,
        0 <= cutoff,
        0 <= b < 256,
    ensures
        ({
            let near = moved_prices(p, d, cutoff, lit_cost, len_sym_cost).lit[b];
            let far = moved_prices(p, more, cutoff, lit_cost, len_sym_cost).lit[b];
            &&& p.lit[b] <= lit_cost ==> p.lit[b] <= near <= far <= lit_cost
            &&& lit_cost <= p.lit[b] ==> lit_cost <= far <= near <= p.lit[b]
        }),
{
}

/// With codes that have a codeword for each symbol that occurs, what an item costs is sixteen
/// times the number of its bits.
pub proof fn law_prices_are_bits(
    ll: Seq<u8>,
    ol: Seq<u8>,
    h: Seq<u8>,
    at: int,
    len: int,
    dist: int,
)
    requires
        0 <= at < h.len(),
        3 <= len <= 258,
        1 <= dist <= 32768,
    ensures
        ll[h[at] as int] != 0 ==> code_prices(ll, ol).lit[h[at] as int] == 16 * items::item_cost(
            h,
            at,
            (1, 0),
            ll,
            ol,
        ),
        ll[257 + items::length_slot_of(len)] != 0 && ol[items::offset_slot_of(dist)] != 0
            ==> code_prices(ll, ol).len[len] + code_prices(ll, ol).slot[items::offset_slot_of(dist)]
            == 16 * items::item_cost(h, at, (len, dist), ll, ol),
{
    items::lemma_slots(len, dist);
}

/// The bytes in matches of at least `min` and less than `n` bytes.
pub open spec fn match_bytes(f: Seq<u32>, min: int, n: int) -> int
    decreases n - min,
{
    if n <= min {
        0
    } else {
        match_bytes(f, min, n - 1) + (n - 1) * f[n - 1]
    }
}

/// The bytes that matches do not take are literals, as far as there are any.
pub proof fn law_literals_left(f: Seq<u32>, block_length: int, min: int, n: int)
    requires
        0 <= block_length,
        0 <= min,
    ensures
        0 <= match_bytes(f, min, n),
        literals_left(f, block_length, min, n) == if match_bytes(f, min, n) <= block_length {
            block_length - match_bytes(f, min, n)
        } else {
            0
        },
    decreases n - min,
{
    if n > min {
        law_literals_left(f, block_length, min, n - 1);
        assert((n - 1) * f[n - 1] >= 0) by (nonlinear_arith)
            requires
                n - 1 >= 0,
                f[n - 1] >= 0,
        ;
    }
}

/// Where matches are more common, they are taken to be cheaper and literals dearer.
pub proof fn law_default_costs(kind: int, more: int, used: int)
    requires
        0 <= kind <= more <= 2,
        1 <= used <= 256,
    ensures
        default_len_sym_cost(more) <= default_len_sym_cost(kind),
        more == 2 ==> default_lit_cost(1, used) < default_lit_cost(2, used),
{
}

/// A byte is counted as often as it stands in the block.
pub proof fn law_byte_count(h: Seq<u8>, from: int, n: nat, b: u8)
    requires
        0 <= from,
        from + n <= h.len(),
    ensures
        byte_count(h, from, n, b as int) == h.subrange(from, from + n).to_multiset().count(b),
    decreases n,
{
    broadcast use vstd::seq_lib::group_to_multiset_ensures;

    if n > 0 {
        law_byte_count(h, from, (n - 1) as nat, b);
        let s = h.subrange(from, from + n - 1);
        assert(h.subrange(from, from + n) =~= s.push(h[from + n - 1]));
    } else {
        assert(h.subrange(from, from + n) =~= Seq::empty());
    }
}

} // verus!
