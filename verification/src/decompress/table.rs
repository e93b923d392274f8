//! Decode tables for canonical prefix codes.
//!
//! A table is looked up with the next bits of the stream, the first bit least
//! significant. An entry holds the decode result of a symbol plus the length of
//! its codeword, once in the low byte and once in the byte above. Codewords
//! longer than the table's index lead to a subtable.

use crate::arith::pow2_u32;
use crate::bits;
use crate::codes;
use crate::grammar;
use crate::compress::huffman::reverse_codeword;
use vstd::arithmetic::div_mod::*;
use vstd::arithmetic::power2::*;
use vstd::prelude::*;

verus! {

/// The entry of a symbol with decode result `result` and `len` codeword bits
/// left to consume.
pub open spec fn entry(result: int, len: int) -> int {
    result + len * 257
}

/// The entry that points to a subtable at `st` with `sb` index bits.
pub open spec fn pointer(st: int, sb: int, tb: int) -> int {
    st * 65536 + 0xC000 + sb * 256 + tb
}

/// The flag that tells a subtable pointer from other entries.
pub open spec fn is_pointer(e: int) -> bool {
    (e / 16384) % 2 == 1
}

pub open spec fn pointer_start(e: int) -> int {
    e / 65536
}

pub open spec fn pointer_bits(e: int) -> int {
    (e / 256) % 64
}

/// No decode result, whatever length is added, looks like a pointer.
pub open spec fn results_ok(results: Seq<u32>) -> bool {
    forall|s: int, l: int|
        0 <= s < results.len() && 1 <= l <= 15 ==> !is_pointer(#[trigger] entry(results[s] as int, l))
            && entry(results[s] as int, l) <= u32::MAX
}

/// The bits `x` lead to the entry of the symbol they start with, within the
/// first `end` places of the table.
pub open spec fn reads(
    table: Seq<u32>,
    tb: nat,
    results: Seq<u32>,
    lens: Seq<u8>,
    x: int,
    end: int,
) -> bool {
    let (sym, len) = codes::next_sym(lens, bits::rev(x, 15));
    let e = table[x % (pow2(tb) as int)] as int;
    if len <= tb {
        e == entry(results[sym] as int, len)
    } else {
        let sb = pointer_bits(e) as nat;
        let st = pointer_start(e);
        &&& is_pointer(e)
        &&& e % 256 == tb
        &&& len - tb <= sb <= 15 - tb
        &&& pow2(tb) <= st
        &&& st + pow2(sb) <= end
        &&& table[st + (x / (pow2(tb) as int)) % (pow2(sb) as int)] == entry(
            results[sym] as int,
            len - tb,
        )
    }
}

/// The table decodes every possible continuation of the stream.
pub open spec fn table_ok(
    table: Seq<u32>,
    tb: nat,
    results: Seq<u32>,
    lens: Seq<u8>,
) -> bool {
    forall|x: int|
        0 <= x < 32768 ==> #[trigger] reads(table, tb, results, lens, x, table.len() as int)
}

/// How large a table must be for `n` symbols of at most `max` bits.
pub open spec fn table_fits(size: int, tb: nat, n: int, max: int) -> bool {
    &&& size >= pow2(tb)
    &&& size <= 16384
    &&& max > tb ==> 2 * (size - pow2(tb)) >= n * pow2((max - tb) as nat)
}

/// The share of sorted symbol `k` ends where the next one starts; that of the
/// last one where the shares of all symbols before the place (`l`, `sym`) end.
pub open spec fn linked(
    lens: Seq<u8>,
    sorted: Seq<u16>,
    starts: Seq<u32>,
    l: int,
    sym: int,
    k: int,
) -> bool {
    starts[k] + codes::weight(lens[sorted[k] as int] as int) == if k + 1 < sorted.len() {
        starts[k + 1] as int
    } else {
        codes::mass(lens, l, sym, lens.len())
    }
}

/// The used symbols in canonical order together with where their shares start.
pub open spec fn sorted_ok(lens: Seq<u8>, sorted: Seq<u16>, starts: Seq<u32>, l: int, sym: int) -> bool {
    &&& sorted.len() == starts.len()
    &&& forall|k: int|
        0 <= k < sorted.len() ==> codes::used(lens, #[trigger] sorted[k] as int) && starts[k]
            == codes::start(lens, sorted[k] as int) && codes::before(lens, l, sym, sorted[k] as int)
    &&& forall|k: int| 0 <= k < sorted.len() ==> #[trigger] linked(lens, sorted, starts, l, sym, k)
    &&& sorted.len() > 0 ==> starts[0] == 0
    &&& sorted.len() == 0 ==> codes::mass(lens, l, sym, lens.len()) == 0
    &&& forall|i: int, j: int|
        0 <= i < j < sorted.len() ==> lens[#[trigger] sorted[i] as int] <= lens[#[trigger] sorted[j] as int]
}

/// Sort the used symbols by codeword length, then by value, and note where the
/// share of each starts.
fn sort_symbols(lens: &[u8], sorted: &mut Vec<u16>, starts: &mut Vec<u32>) -> (total: u32)
    requires
        codes::bounded(lens@),
        lens@.len() <= 288,
        old(sorted)@.len() == 0,
        old(starts)@.len() == 0,
    ensures
        total == codes::kraft(lens@),
        sorted_ok(lens@, final(sorted)@, final(starts)@, 16, 0),
        final(sorted)@.len() <= lens@.len(),
{
    let n: usize = lens.len();
    let mut total: u32 = 0;
    let mut l: u8 = 1;
    proof {
        codes::lemma_mass_first(lens@, n as nat);
        lemma_count_bound(lens@, 1, n as nat);
    }
    while l <= 15
        invariant
            n == lens@.len(),
            n <= 288,
            1 <= l <= 16,
            codes::bounded(lens@),
            total == codes::mass(lens@, l as int, 0, n as nat),
            sorted_ok(lens@, sorted@, starts@, l as int, 0),
            sorted@.len() <= count_below(lens@, l as int, n as nat),
        decreases 16 - l,
    {
        let mut sym: usize = 0;
        while sym < n
            invariant
                n == lens@.len(),
                n <= 288,
                1 <= l <= 15,
                sym <= n,
                codes::bounded(lens@),
                total == codes::mass(lens@, l as int, sym as int, n as nat),
                sorted_ok(lens@, sorted@, starts@, l as int, sym as int),
                sorted@.len() <= count_below(lens@, l as int, n as nat) + count_at(
                    lens@,
                    l as int,
                    sym as nat,
                ),
            decreases n - sym,
        {
            proof {
                codes::lemma_mass_step(lens@, l as int, sym as int, n as nat);
                codes::lemma_mass_nonneg(lens@, l as int, sym as int, n as nat);
                codes::lemma_weight_pos(l as int);
            }
            let ghost s0 = sorted@;
            let ghost t0 = starts@;
            if lens[sym] == l {
                sorted.push(sym as u16);
                starts.push(total);
                total = total + pow2_u32((15 - l) as u32);
                proof {
                    assert(sorted@.len() == s0.len() + 1);
                    assert forall|k: int| 0 <= k < sorted@.len() implies #[trigger] linked(
                        lens@,
                        sorted@,
                        starts@,
                        l as int,
                        sym + 1,
                        k,
                    ) by {
                        if k < s0.len() {
                            assert(linked(lens@, s0, t0, l as int, sym as int, k));
                        }

                        if k < s0.len() {
                            assert(t0[k] == starts@[k] && s0[k] == sorted@[k]);
                        }
                    }
                    assert forall|i: int, j: int| 0 <= i < j < sorted@.len() implies lens@[#[trigger] sorted@[i] as int]
                        <= lens@[#[trigger] sorted@[j] as int] by {
                        if j == s0.len() {
                            assert(codes::before(lens@, l as int, sym as int, s0[i] as int));
                        }
                    }
                    assert forall|k: int| 0 <= k < sorted@.len() implies codes::used(
                        lens@,
                        #[trigger] sorted@[k] as int,
                    ) && starts@[k] == codes::start(lens@, sorted@[k] as int) && codes::before(
                        lens@,
                        l as int,
                        sym + 1,
                        sorted@[k] as int,
                    ) by {
                        if k < s0.len() {
                            assert(t0[k] == starts@[k] && s0[k] == sorted@[k]);
                            assert(codes::before(lens@, l as int, sym as int, s0[k] as int));
                        }
                    }
                }
            } else {
                proof {
                    assert forall|k: int| 0 <= k < sorted@.len() implies codes::used(
                        lens@,
                        #[trigger] sorted@[k] as int,
                    ) && starts@[k] == codes::start(lens@, sorted@[k] as int) && codes::before(
                        lens@,
                        l as int,
                        sym + 1,
                        sorted@[k] as int,
                    ) by {
                        assert(codes::before(lens@, l as int, sym as int, s0[k] as int));
                    }
                    assert forall|k: int| 0 <= k < sorted@.len() implies #[trigger] linked(
                        lens@,
                        sorted@,
                        starts@,
                        l as int,
                        sym + 1,
                        k,
                    ) by {
                        if k < s0.len() {
                            assert(linked(lens@, s0, t0, l as int, sym as int, k));
                        }

                        assert(t0[k] == starts@[k] && s0[k] == sorted@[k]);
                    }
                }
            }
            sym = sym + 1;
        }
        proof {
            codes::lemma_mass_next_len(lens@, l as int, n as int, n as nat);
            lemma_count_step(lens@, l as int, n as nat);
            let s0 = sorted@;
            assert forall|k: int| 0 <= k < sorted@.len() implies codes::used(
                lens@,
                #[trigger] sorted@[k] as int,
            ) && starts@[k] == codes::start(lens@, sorted@[k] as int) && codes::before(
                lens@,
                l + 1,
                0,
                sorted@[k] as int,
            ) by {
                assert(codes::before(lens@, l as int, n as int, s0[k] as int));
            }
            assert forall|k: int| 0 <= k < sorted@.len() implies #[trigger] linked(
                lens@,
                sorted@,
                starts@,
                l + 1,
                0,
                k,
            ) by {
                assert(linked(lens@, s0, starts@, l as int, n as int, k));
            }
        }
        l = l + 1;
    }
    proof {
        lemma_count_bound(lens@, 16, n as nat);
    }
    total
}

spec fn count_below(lens: Seq<u8>, l: int, n: nat) -> int
    decreases n,
{
    if n == 0 {
        0
    } else {
        count_below(lens, l, (n - 1) as nat) + if 0 < lens[n - 1] < l {
            1int
        } else {
            0
        }
    }
}

spec fn count_at(lens: Seq<u8>, l: int, n: nat) -> int
    decreases n,
{
    if n == 0 {
        0
    } else {
        count_at(lens, l, (n - 1) as nat) + if lens[n - 1] == l {
            1int
        } else {
            0
        }
    }
}

proof fn lemma_count_step(lens: Seq<u8>, l: int, n: nat)
    requires
        l >= 1,
    ensures
        count_below(lens, l + 1, n) == count_below(lens, l, n) + count_at(lens, l, n),
    decreases n,
{
    if n > 0 {
        lemma_count_step(lens, l, (n - 1) as nat);
    }
}

proof fn lemma_count_bound(lens: Seq<u8>, l: int, n: nat)
    ensures
        0 <= count_below(lens, l, n) <= n,
    decreases n,
{
    if n > 0 {
        lemma_count_bound(lens, l, (n - 1) as nat);
    }
}

/// Write `e` to every `step`-th place of the `size` places from `base` on,
/// beginning with place `first`.
fn fill_stride(table: &mut [u32], base: usize, size: usize, first: usize, step: usize, e: u32)
    requires
        first < step,
        base + size <= old(table)@.len(),
        size + step <= usize::MAX,
    ensures
        final(table)@.len() == old(table)@.len(),
        forall|i: int|
            0 <= i < size ==> #[trigger] final(table)@[base + i] == if i % (step as int) == first {
                e
            } else {
                old(table)@[base + i]
            },
        forall|i: int|
            0 <= i < old(table)@.len() && !(base <= i < base + size) ==> #[trigger] final(table)@[i]
                == old(table)@[i],
{
    let n: usize = table.len();
    let mut i: usize = first;
    proof {
        lemma_small_mod(first as nat, step as nat);
        assert forall|j: int| 0 <= j < first implies #[trigger] (j % (step as int)) != first by {
            lemma_small_mod(j as nat, step as nat);
        }
    }
    while i < size
        invariant
            first < step,
            size + step <= usize::MAX,
            i < size + step,
            base + size <= n,
            n == table@.len(),
            table@.len() == old(table)@.len(),
            i % step == first,
            forall|j: int|
                0 <= j < size ==> #[trigger] table@[base + j] == if j < i && j % (step as int)
                    == first {
                    e
                } else {
                    old(table)@[base + j]
                },
            forall|j: int|
                0 <= j < table@.len() && !(base <= j < base + size) ==> #[trigger] table@[j] == old(
                    table,
                )@[j],
        decreases size + step - i,
    {
        let ghost prev = table@;
        table[base + i] = e;
        proof {
            lemma_mod_add_multiples_vanish(i as int, step as int);
            assert forall|j: int| 0 <= j < size implies #[trigger] table@[base + j] == if j < i
                + step && j % (step as int) == first {
                e
            } else {
                old(table)@[base + j]
            } by {
                assert(prev[base + j] == if j < i && j % (step as int) == first {
                    e
                } else {
                    old(table)@[base + j]
                });
                if i < j < i + step {
                    lemma_between(i as int, j, step as int);
                }
            }
        }
        i = i + step;
    }
}

/// Between two numbers a full step apart the remainder is another one.
proof fn lemma_between(a: int, b: int, d: int)
    requires
        0 <= a < b < a + d,
    ensures
        a % d != b % d,
{
    if a % d == b % d {
        lemma_fundamental_div_mod(a, d);
        lemma_fundamental_div_mod(b, d);
        let q = b / d - a / d;
        assert(b - a == d * q) by (nonlinear_arith)
            requires
                a == d * (a / d) + a % d,
                b == d * (b / d) + b % d,
                a % d == b % d,
                q == b / d - a / d,
        ;
        assert(false) by (nonlinear_arith)
            requires
                0 < d * q < d,
                d > 0,
        ;
    }
}

/// Every bit pattern whose window lies below `w` is decoded.
spec fn covered(
    table: Seq<u32>,
    tb: nat,
    results: Seq<u32>,
    lens: Seq<u8>,
    w: int,
    end: int,
) -> bool {
    forall|x: int|
        0 <= x < 32768 && bits::rev(x, 15) < w ==> #[trigger] reads(
            table,
            tb,
            results,
            lens,
            x,
            end,
        )
}

/// Adding the entries of one short codeword extends what the table decodes.
proof fn lemma_cover_short(
    before: Seq<u32>,
    after: Seq<u32>,
    tb: nat,
    results: Seq<u32>,
    lens: Seq<u8>,
    sym: int,
)
    requires
        codes::bounded(lens),
        codes::complete(lens),
        codes::used(lens, sym),
        lens[sym] <= tb <= 15,
        pow2(tb) <= before.len() == after.len(),
        covered_short(before, tb, results, lens, codes::start(lens, sym)),
        forall|i: int|
            0 <= i < pow2(tb) ==> #[trigger] after[i] == if i % (pow2(lens[sym] as nat) as int)
                == bits::rev(codes::codeword(lens, sym), lens[sym] as nat) {
                entry(results[sym] as int, lens[sym] as int)
            } else {
                before[i] as int
            },
    ensures
        covered_short(
            after,
            tb,
            results,
            lens,
            codes::start(lens, sym) + codes::weight(lens[sym] as int),
        ),
{
    let l = lens[sym] as nat;
    let s0 = codes::start(lens, sym);
    lemma_pow2_pos(tb);
    lemma_pow2_pos(l);
    assert forall|x: int|
        0 <= x < 32768 && bits::rev(x, 15) < s0 + codes::weight(l as int) implies #[trigger] reads_short(
        after,
        tb,
        results,
        lens,
        x,
    ) by {
        codes::lemma_window_codeword(lens, sym, x);
        let i = x % (pow2(tb) as int);
        let d = pow2(l) as int;
        lemma_pow2_adds(l, (tb - l) as nat);
        let k = pow2((tb - l) as nat) as int;
        lemma_pow2_pos((tb - l) as nat);
        lemma_mod_mod(x, d, k);
        assert(d * k == pow2(tb));
        assert(i % d == x % d);
        lemma_mod_bound(x, pow2(tb) as int);
        assert(after[i] == if i % d == bits::rev(codes::codeword(lens, sym), l) {
            entry(results[sym] as int, l as int)
        } else {
            before[i] as int
        });
        if bits::rev(x, 15) < s0 {
            assert(reads_short(before, tb, results, lens, x));
            assert(!codes::hits(lens, sym, bits::rev(x, 15)));
        } else {
            assert(codes::hits(lens, sym, bits::rev(x, 15)));
            codes::lemma_next_sym_hit(lens, sym, bits::rev(x, 15));
        }
    }
}

spec fn reads_short(
    table: Seq<u32>,
    tb: nat,
    results: Seq<u32>,
    lens: Seq<u8>,
    x: int,
) -> bool {
    let (sym, len) = codes::next_sym(lens, bits::rev(x, 15));
    len <= tb && table[x % (pow2(tb) as int)] == entry(results[sym] as int, len)
}

spec fn covered_short(
    table: Seq<u32>,
    tb: nat,
    results: Seq<u32>,
    lens: Seq<u8>,
    w: int,
) -> bool {
    forall|x: int|
        0 <= x < 32768 && bits::rev(x, 15) < w ==> #[trigger] reads_short(table, tb, results, lens, x)
}

/// Where the share of the `k`-th sorted symbol starts; past the last symbol,
/// the end of the number line.
spec fn start_at(starts: Seq<u32>, k: int) -> int {
    if k < starts.len() {
        starts[k] as int
    } else {
        32768
    }
}

/// Writes outside the places that a bit pattern is led to leave it decoded.
proof fn lemma_reads_frame(
    before: Seq<u32>,
    after: Seq<u32>,
    tb: nat,
    results: Seq<u32>,
    lens: Seq<u8>,
    x: int,
    end: int,
    end2: int,
    p: int,
)
    requires
        0 <= x,
        before.len() == after.len(),
        pow2(tb) <= end <= end2 <= before.len(),
        reads(before, tb, results, lens, x, end),
        x % (pow2(tb) as int) != p,
        forall|i: int| 0 <= i < end && i != p ==> #[trigger] after[i] == before[i],
        0 <= p < pow2(tb),
    ensures
        reads(after, tb, results, lens, x, end2),
{
    lemma_pow2_pos(tb);
    lemma_mod_bound(x, pow2(tb) as int);
    let (sym, len) = codes::next_sym(lens, bits::rev(x, 15));
    let i = x % (pow2(tb) as int);
    assert(after[i] == before[i]);
    if len > tb {
        let e = before[i] as int;
        let sb = pointer_bits(e) as nat;
        lemma_pow2_pos(sb);
        let y = (x / (pow2(tb) as int)) % (pow2(sb) as int);
        lemma_mod_bound(x / (pow2(tb) as int), pow2(sb) as int);
        let j = pointer_start(e) + y;
        assert(after[j] == before[j]);
    }
}

/// A bit pattern of a group of long codewords agrees with the group's prefix.
proof fn lemma_group_prefix(t: int, tb: nat, x: int)
    requires
        1 <= tb <= 15,
        0 <= t < pow2(tb),
        0 <= x < 32768,
    ensures
        x % (pow2(tb) as int) == bits::rev(t, tb) <==> t * pow2((15 - tb) as nat) <= bits::rev(x, 15)
            < (t + 1) * pow2((15 - tb) as nat),
{
    lemma2_to64();
    bits::lemma_rev_prefix(x, t, tb, 15);
}

/// Adding the subtable entries of one long codeword extends what the subtable decodes.
proof fn lemma_cover_long(
    before: Seq<u32>,
    after: Seq<u32>,
    tb: nat,
    sb: nat,
    base: int,
    results: Seq<u32>,
    lens: Seq<u8>,
    sym: int,
    t: int,
)
    requires
        codes::bounded(lens),
        codes::complete(lens),
        codes::used(lens, sym),
        1 <= tb <= 15,
        0 <= t < pow2(tb),
        tb < lens[sym] <= tb + sb,
        0 <= base,
        base + pow2(sb) <= before.len() == after.len(),
        t * pow2((15 - tb) as nat) <= codes::start(lens, sym),
        codes::start(lens, sym) + codes::weight(lens[sym] as int) <= (t + 1) * pow2(
            (15 - tb) as nat,
        ),
        covered_long(
            before,
            tb,
            sb,
            base,
            results,
            lens,
            t * pow2((15 - tb) as nat),
            codes::start(lens, sym),
        ),
        forall|i: int|
            0 <= i < pow2(sb) ==> #[trigger] after[base + i] == if i % (pow2(
                (lens[sym] - tb) as nat,
            ) as int) == bits::rev(codes::codeword(lens, sym), lens[sym] as nat) / (pow2(
                tb,
            ) as int) {
                entry(results[sym] as int, lens[sym] - tb)
            } else {
                before[base + i] as int
            },
    ensures
        covered_long(
            after,
            tb,
            sb,
            base,
            results,
            lens,
            t * pow2((15 - tb) as nat),
            codes::start(lens, sym) + codes::weight(lens[sym] as int),
        ),
{
    let l = lens[sym] as nat;
    let m = (l - tb) as nat;
    let s0 = codes::start(lens, sym);
    let lo = t * pow2((15 - tb) as nat);
    let r = bits::rev(codes::codeword(lens, sym), l);
    let a = pow2(tb) as int;
    let b = pow2(m) as int;
    let c = pow2(sb) as int;
    lemma_pow2_pos(tb);
    lemma_pow2_pos(m);
    lemma_pow2_pos(sb);
    lemma_pow2_pos((sb - m) as nat);
    lemma_pow2_adds(tb, m);
    lemma_pow2_adds(m, (sb - m) as nat);
    assert(tb + m == l);
    assert(a * b == pow2(l));
    codes::lemma_codeword(lens, sym);
    bits::lemma_rev_bound(codes::codeword(lens, sym), l);
    lemma2_to64();
    if l < 15 {
        lemma_pow2_strictly_increases(l, 15);
    }
    // the reversed codeword itself is a pattern of the group
    lemma_small_mod(r as nat, pow2(l));
    codes::lemma_window_codeword(lens, sym, r);
    lemma_group_prefix(t, tb, r);
    assert(r % a == bits::rev(t, tb));
    lemma_mod_breakdown(r, a, b);
    lemma_small_mod(r as nat, pow2(l));
    assert(r == a * ((r / a) % b) + r % a);
    lemma_fundamental_div_mod(r, a);
    assert((r / a) % b == r / a) by (nonlinear_arith)
        requires
            r == a * ((r / a) % b) + r % a,
            r == a * (r / a) + r % a,
            a > 0,
    ;
    assert forall|x: int|
        0 <= x < 32768 && lo <= bits::rev(x, 15) < s0 + codes::weight(l as int) implies #[trigger] reads_long(
        after,
        tb,
        sb,
        base,
        results,
        lens,
        x,
    ) by {
        codes::lemma_window_codeword(lens, sym, x);
        lemma_group_prefix(t, tb, x);
        let z = x / a;
        let y = z % c;
        lemma_mod_bound(z, c);
        lemma_mod_mod(z, b, pow2((sb - m) as nat) as int);
        assert(y % b == z % b);
        lemma_mod_breakdown(x, a, b);
        assert(x % (a * b) == a * (z % b) + x % a);
        assert((x % (a * b) == r) <==> (z % b == r / a)) by (nonlinear_arith)
            requires
                x % (a * b) == a * (z % b) + x % a,
                r == a * (r / a) + r % a,
                x % a == r % a,
                a > 0,
        ;
        assert(after[base + y] == if y % b == r / a {
            entry(results[sym] as int, l - tb)
        } else {
            before[base + y] as int
        });
        if bits::rev(x, 15) < s0 {
            assert(reads_long(before, tb, sb, base, results, lens, x));
            assert(!codes::hits(lens, sym, bits::rev(x, 15)));
        } else {
            assert(codes::hits(lens, sym, bits::rev(x, 15)));
            codes::lemma_next_sym_hit(lens, sym, bits::rev(x, 15));
        }
    }
}

spec fn reads_long(
    table: Seq<u32>,
    tb: nat,
    sb: nat,
    base: int,
    results: Seq<u32>,
    lens: Seq<u8>,
    x: int,
) -> bool {
    let (sym, len) = codes::next_sym(lens, bits::rev(x, 15));
    &&& tb < len <= tb + sb
    &&& table[base + (x / (pow2(tb) as int)) % (pow2(sb) as int)] == entry(
        results[sym] as int,
        len - tb,
    )
}

spec fn covered_long(
    table: Seq<u32>,
    tb: nat,
    sb: nat,
    base: int,
    results: Seq<u32>,
    lens: Seq<u8>,
    lo: int,
    hi: int,
) -> bool {
    forall|x: int|
        0 <= x < 32768 && lo <= bits::rev(x, 15) < hi ==> #[trigger] reads_long(
            table,
            tb,
            sb,
            base,
            results,
            lens,
            x,
        )
}

/// Two multiples of `d` that differ do so by at least `d`.
proof fn lemma_multiples_apart(a: int, b: int, d: int)
    requires
        d > 0,
        a % d == 0,
        b % d == 0,
        a < b,
    ensures
        a + d <= b,
{
    lemma_fundamental_div_mod(a, d);
    lemma_fundamental_div_mod(b, d);
    assert(a + d <= b) by (nonlinear_arith)
        requires
            a == d * (a / d),
            b == d * (b / d),
            a < b,
            d > 0,
    ;
}

/// The end of a group of codewords longer than `tb` bits is a multiple of the
/// share of each of them.
proof fn lemma_group_end_div(t: int, tb: nat, l: nat)
    requires
        1 <= tb < l <= 15,
    ensures
        ((t + 1) * pow2((15 - tb) as nat)) % codes::weight(l as int) == 0,
        2 * codes::weight(l as int) <= pow2((15 - tb) as nat),
{
    let d = codes::weight(l as int);
    codes::lemma_weight_pos(l as int);
    let m = (l - tb) as nat;
    lemma_pow2_adds((15 - l) as nat, m);
    assert((15 - l) as nat + m == (15 - tb) as nat);
    let e = pow2(m) as int;
    let q = (t + 1) * e;
    assert((t + 1) * pow2((15 - tb) as nat) == q * d) by (nonlinear_arith)
        requires
            pow2((15 - tb) as nat) == d * e,
            q == (t + 1) * e,
    ;
    lemma_mod_multiples_basic(q, d);
    lemma_pow2_unfold(m);
    lemma_pow2_pos((m - 1) as nat);
    assert(d * e >= 2 * d) by (nonlinear_arith)
        requires
            e >= 2,
            d > 0,
    ;
}

/// Symbol `i` of the sorted symbols belongs to the group of codewords longer
/// than `tb` bits whose shares lie between `lo` and `hi`.
spec fn in_group(
    lens: Seq<u8>,
    sorted: Seq<u16>,
    starts: Seq<u32>,
    tb: int,
    lo: int,
    hi: int,
    i: int,
) -> bool {
    &&& lens[sorted[i] as int] > tb
    &&& lo <= starts[i]
    &&& starts[i] + codes::weight(lens[sorted[i] as int] as int) <= hi
}

/// The facts about codeword group number `t` that the table builder uses.
proof fn lemma_group(lens: Seq<u8>, s: int, tb: nat, t: int)
    requires
        codes::bounded(lens),
        codes::complete(lens),
        codes::used(lens, s),
        1 <= tb < 15,
        t == codes::start(lens, s) / (pow2((15 - tb) as nat) as int),
        codes::start(lens, s) % (pow2((15 - tb) as nat) as int) == 0,
    ensures
        t * pow2((15 - tb) as nat) == codes::start(lens, s),
        (t + 1) * pow2((15 - tb) as nat) == codes::start(lens, s) + pow2((15 - tb) as nat),
        0 <= t < pow2(tb),
        (t + 1) * pow2((15 - tb) as nat) <= 32768,
{
    let gi = pow2((15 - tb) as nat) as int;
    let st = codes::start(lens, s);
    lemma2_to64();
    lemma_pow2_pos((15 - tb) as nat);
    codes::lemma_share_in_kraft(lens, s);
    codes::lemma_weight_pos(lens[s] as int);
    lemma_fundamental_div_mod(st, gi);
    assert(t * gi == st) by (nonlinear_arith)
        requires
            st == gi * (st / gi) + 0,
            t == st / gi,
    ;
    assert((t + 1) * gi == t * gi + gi) by (nonlinear_arith);
    lemma_pow2_adds(tb, (15 - tb) as nat);
    assert(0 <= t) by (nonlinear_arith)
        requires
            t * gi >= 0,
            gi > 0,
    ;
    assert(t < pow2(tb)) by (nonlinear_arith)
        requires
            t * gi < pow2(tb) * gi,
            gi > 0,
    ;
    assert((t + 1) * gi <= 32768) by (nonlinear_arith)
        requires
            t + 1 <= pow2(tb),
            pow2(tb) * gi == 32768,
            gi > 0,
    ;
}

/// The index of the first sorted symbol past the group of symbol `k`.
fn group_end(
    lens: &[u8],
    tb: u32,
    sorted: &Vec<u16>,
    starts: &Vec<u32>,
    k: usize,
) -> (j: usize)
    requires
        codes::bounded(lens@),
        codes::complete(lens@),
        sorted_ok(lens@, sorted@, starts@, 16, 0),
        1 <= tb < 15,
        k < sorted@.len(),
        lens@[sorted@[k as int] as int] > tb,
        starts@[k as int] as int % (pow2((15 - tb) as nat) as int) == 0,
    ensures
        k + 2 <= j <= sorted@.len(),
        start_at(starts@, j as int) == starts@[k as int] + pow2((15 - tb) as nat),
        forall|i: int|
            k <= i < j ==> #[trigger] in_group(
                lens@,
                sorted@,
                starts@,
                tb as int,
                starts@[k as int] as int,
                starts@[k as int] + pow2((15 - tb) as nat),
                i,
            ),
        start_at(starts@, j as int) % (pow2((15 - tb) as nat) as int) == 0,
{
    let m: usize = sorted.len();
    let g: u32 = pow2_u32(15 - tb);
    let ghost gi = pow2((15 - tb) as nat) as int;
    let ghost lo = starts@[k as int] as int;
    let ghost ts = lo / gi;
    proof {
        assert(codes::used(lens@, sorted@[k as int] as int));
        lemma_group(lens@, sorted@[k as int] as int, tb as nat, ts);
    }
    let ge: u32 = starts[k] + g;
    let mut j: usize = k;
    while j < m && starts[j] < ge
        invariant
            m == sorted@.len() == starts@.len(),
            k <= j <= m,
            k < m,
            codes::bounded(lens@),
            codes::complete(lens@),
            sorted_ok(lens@, sorted@, starts@, 16, 0),
            1 <= tb < 15,
            lens@[sorted@[k as int] as int] > tb,
            gi == pow2((15 - tb) as nat),
            lo == starts@[k as int],
            ge == (ts + 1) * gi,
            ge == lo + gi,
            j == k || start_at(starts@, j as int) <= ge,
            forall|i: int|
                k <= i < j ==> #[trigger] in_group(
                    lens@,
                    sorted@,
                    starts@,
                    tb as int,
                    lo,
                    ge as int,
                    i,
                ),
        decreases m - j,
    {
        proof {
            let ji = j as int;
            let sym = sorted@[ji] as int;
            assert(codes::used(lens@, sym));
            if k < ji {
                assert(lens@[sorted@[k as int] as int] <= lens@[sorted@[ji] as int]);
                assert(in_group(lens@, sorted@, starts@, tb as int, lo, ge as int, ji - 1));
                assert(linked(lens@, sorted@, starts@, 16, 0, ji - 1));
                codes::lemma_weight_pos(lens@[sorted@[ji - 1] as int] as int);
            }
            let l = lens@[sym] as nat;
            codes::lemma_weight_pos(l as int);
            lemma_group_end_div(ts, tb as nat, l);
            codes::lemma_mass_div(lens@, l as int, sym, lens@.len());
            lemma_multiples_apart(starts@[ji] as int, ge as int, codes::weight(l as int));
            assert(linked(lens@, sorted@, starts@, 16, 0, ji));
        }
        j = j + 1;
    }
    proof {
        lemma_pow2_pos((15 - tb) as nat);
        let last = j - 1;
        assert(in_group(lens@, sorted@, starts@, tb as int, lo, ge as int, last));
        assert(linked(lens@, sorted@, starts@, 16, 0, last));
        if j == k + 1 {
            lemma_group_end_div(ts, tb as nat, lens@[sorted@[k as int] as int] as nat);
            codes::lemma_weight_pos(lens@[sorted@[k as int] as int] as int);
        }
        lemma_mod_multiples_basic(ts + 1, gi);
    }
    j
}

/// Fill the subtable at `end` with the entries of the sorted symbols `k` to `j`,
/// which all start with the `tb` bits of group `t`.
fn fill_subtable(
    table: &mut [u32],
    lens: &[u8],
    results: &[u32],
    tb: u32,
    sb: u32,
    sorted: &Vec<u16>,
    starts: &Vec<u32>,
    k: usize,
    j: usize,
    t: u32,
    end: usize,
)
    requires
        codes::bounded(lens@),
        codes::complete(lens@),
        lens@.len() <= 288,
        lens@.len() <= results@.len(),
        results_ok(results@),
        sorted_ok(lens@, sorted@, starts@, 16, 0),
        1 <= tb < 15,
        1 <= sb <= 15 - tb,
        k < j <= sorted@.len(),
        0 <= t < pow2(tb as nat),
        t * pow2((15 - tb) as nat) == starts@[k as int],
        forall|i: int|
            k <= i < j ==> #[trigger] in_group(
                lens@,
                sorted@,
                starts@,
                tb as int,
                t * pow2((15 - tb) as nat),
                (t + 1) * pow2((15 - tb) as nat),
                i,
            ) && lens@[sorted@[i] as int] <= tb + sb,
        end + pow2(sb as nat) <= old(table)@.len() <= 16384,
    ensures
        final(table)@.len() == old(table)@.len(),
        forall|i: int| 0 <= i < end ==> #[trigger] final(table)@[i] == old(table)@[i],
        covered_long(
            final(table)@,
            tb as nat,
            sb as nat,
            end as int,
            results@,
            lens@,
            starts@[k as int] as int,
            start_at(starts@, j as int),
        ),
{
    let size: usize = pow2_u32(sb) as usize;
    let tbs: u32 = pow2_u32(tb);
    let ghost lo = starts@[k as int] as int;
    let ghost hi = (t + 1) * pow2((15 - tb) as nat);
    let mut i: usize = k;
    while i < j
        invariant
            k <= i <= j <= sorted@.len(),
            k < j,
            codes::bounded(lens@),
            codes::complete(lens@),
            lens@.len() <= 288,
            lens@.len() <= results@.len(),
            results_ok(results@),
            sorted_ok(lens@, sorted@, starts@, 16, 0),
            1 <= tb < 15,
            tbs == pow2(tb as nat),
            0 <= t < pow2(tb as nat),
            lo == t * pow2((15 - tb) as nat),
            hi == (t + 1) * pow2((15 - tb) as nat),
            lo == starts@[k as int],
            1 <= sb <= 15 - tb,
            size == pow2(sb as nat),
            end + size <= table@.len() <= 16384,
            table@.len() == old(table)@.len(),
            forall|q: int|
                k <= q < j ==> #[trigger] in_group(
                    lens@,
                    sorted@,
                    starts@,
                    tb as int,
                    lo,
                    hi,
                    q,
                ) && lens@[sorted@[q] as int] <= tb + sb,
            forall|q: int| 0 <= q < end ==> #[trigger] table@[q] == old(table)@[q],
            covered_long(
                table@,
                tb as nat,
                sb as nat,
                end as int,
                results@,
                lens@,
                lo,
                start_at(starts@, i as int),
            ),
        decreases j - i,
    {
        let sym: usize = sorted[i] as usize;
        proof {
            assert(codes::used(lens@, sorted@[i as int] as int));
            assert(in_group(lens@, sorted@, starts@, tb as int, lo, hi, i as int));
            codes::lemma_codeword(lens@, sym as int);
            codes::lemma_weight_pos(lens@[sym as int] as int);
            codes::lemma_share_in_kraft(lens@, sym as int);
        }
        let l: u8 = lens[sym];
        let c: u32 = starts[i] / pow2_u32((15 - l) as u32);
        let r: u32 = reverse_codeword(c, l);
        let step: usize = pow2_u32(l as u32 - tb) as usize;
        proof {
            assert(!is_pointer(entry(results@[sym as int] as int, l - tb)));
        }
        let e: u32 = results[sym] + (l as u32 - tb) * 257;
        let ghost before = table@;
        proof {
            lemma_pow2_adds(tb as nat, (l - tb) as nat);
            lemma_pow2_pos(tb as nat);
            lemma2_to64();
            lemma_pow2_strictly_increases((l - tb) as nat, 15);
            assert(r / tbs < step) by (nonlinear_arith)
                requires
                    r < pow2(l as nat),
                    pow2(l as nat) == tbs * step,
                    tbs > 0,
            ;
        }
        fill_stride(table, end, size, (r / tbs) as usize, step, e);
        proof {
            lemma_cover_long(
                before,
                table@,
                tb as nat,
                sb as nat,
                end as int,
                results@,
                lens@,
                sym as int,
                t as int,
            );
            assert(linked(lens@, sorted@, starts@, 16, 0, i as int));
        }
        i = i + 1;
    }
}

/// Add the subtable for the codewords that share their first `tb` bits with the
/// `k`-th sorted symbol. Returns the index of the first symbol after the group
/// and the first free place of the table.
fn add_subtable(
    table: &mut [u32],
    lens: &[u8],
    results: &[u32],
    tb: u32,
    max: u32,
    sorted: &Vec<u16>,
    starts: &Vec<u32>,
    k: usize,
    end: usize,
) -> (r: (usize, usize))
    requires
        codes::bounded(lens@),
        codes::complete(lens@),
        lens@.len() <= 288,
        lens@.len() <= results@.len(),
        results_ok(results@),
        sorted_ok(lens@, sorted@, starts@, 16, 0),
        1 <= tb < max <= 15,
        forall|s: int| 0 <= s < lens@.len() ==> #[trigger] lens@[s] <= max,
        k < sorted@.len(),
        lens@[sorted@[k as int] as int] > tb,
        starts@[k as int] as int % (pow2((15 - tb) as nat) as int) == 0,
        pow2(tb as nat) <= end,
        end + pow2((max - tb) as nat) <= old(table)@.len() <= 16384,
        covered(old(table)@, tb as nat, results@, lens@, starts@[k as int] as int, end as int),
    ensures
        k + 2 <= r.0 <= sorted@.len(),
        end <= r.1 <= end + pow2((max - tb) as nat),
        final(table)@.len() == old(table)@.len(),
        covered(
            final(table)@,
            tb as nat,
            results@,
            lens@,
            start_at(starts@, r.0 as int),
            r.1 as int,
        ),
        start_at(starts@, r.0 as int) % (pow2((15 - tb) as nat) as int) == 0,
{
    proof {
        lemma_pow2_pos((15 - tb) as nat);
    }
    let t: u32 = starts[k] / pow2_u32(15 - tb);
    let ghost lo = starts@[k as int] as int;
    proof {
        assert(codes::used(lens@, sorted@[k as int] as int));
        lemma_group(lens@, sorted@[k as int] as int, tb as nat, t as int);
    }
    let j: usize = group_end(lens, tb, sorted, starts, k);
    proof {
        assert(in_group(lens@, sorted@, starts@, tb as int, lo, lo + pow2((15 - tb) as nat), j - 1));
        assert(codes::used(lens@, sorted@[j - 1] as int));
        assert forall|i: int| k <= i < j implies #[trigger] in_group(
            lens@,
            sorted@,
            starts@,
            tb as int,
            t * pow2((15 - tb) as nat),
            (t + 1) * pow2((15 - tb) as nat),
            i,
        ) && lens@[sorted@[i] as int] <= lens@[sorted@[j - 1] as int] by {
            assert(in_group(
                lens@,
                sorted@,
                starts@,
                tb as int,
                lo,
                lo + pow2((15 - tb) as nat),
                i,
            ));
            if i < j - 1 {
                assert(lens@[sorted@[i] as int] <= lens@[sorted@[j - 1] as int]);
            }
        }
    }
    let sb: u32 = lens[sorted[j - 1] as usize] as u32 - tb;
    proof {
        if sb < max - tb {
            lemma_pow2_strictly_increases(sb as nat, (max - tb) as nat);
        }
    }
    let new_end: usize = end + pow2_u32(sb) as usize;
    let p: usize = reverse_codeword(t, tb as u8) as usize;
    let ghost before = table@;
    let ptr: u32 = (end as u32) * 65536 + 0xC000 + sb * 256 + tb;
    table[p] = ptr;
    fill_subtable(table, lens, results, tb, sb, sorted, starts, k, j, t, end);
    proof {
        lemma_subtable_covers(
            before,
            table@,
            tb as nat,
            sb as nat,
            results@,
            lens@,
            t as int,
            end as int,
        );
    }
    (j, new_end)
}

/// A filled subtable and its pointer extend what the table decodes by the group.
proof fn lemma_subtable_covers(
    before: Seq<u32>,
    after: Seq<u32>,
    tb: nat,
    sb: nat,
    results: Seq<u32>,
    lens: Seq<u8>,
    t: int,
    end: int,
)
    requires
        before.len() == after.len(),
        1 <= tb < 15,
        1 <= sb <= 15 - tb,
        0 <= t < pow2(tb),
        pow2(tb) <= end,
        end + pow2(sb) <= before.len(),
        covered(before, tb, results, lens, t * pow2((15 - tb) as nat), end),
        covered_long(
            after,
            tb,
            sb,
            end,
            results,
            lens,
            t * pow2((15 - tb) as nat),
            (t + 1) * pow2((15 - tb) as nat),
        ),
        after[bits::rev(t, tb)] == pointer(end, sb as int, tb as int),
        forall|i: int| 0 <= i < end && i != bits::rev(t, tb) ==> #[trigger] after[i] == before[i],
    ensures
        covered(
            after,
            tb,
            results,
            lens,
            (t + 1) * pow2((15 - tb) as nat),
            end + pow2(sb),
        ),
{
    let lo = t * pow2((15 - tb) as nat);
    let hi = (t + 1) * pow2((15 - tb) as nat);
    let p = bits::rev(t, tb);
    bits::lemma_rev_bound(t, tb);
    lemma_pointer(end, sb as int, tb as int);
    assert forall|x: int| 0 <= x < 32768 && bits::rev(x, 15) < hi implies #[trigger] reads(
        after,
        tb,
        results,
        lens,
        x,
        end + pow2(sb),
    ) by {
        lemma_group_prefix(t, tb, x);
        if bits::rev(x, 15) >= lo {
            assert(reads_long(after, tb, sb, end, results, lens, x));
        } else {
            assert(reads(before, tb, results, lens, x, end));
            lemma_reads_frame(before, after, tb, results, lens, x, end, end + pow2(sb), p);
        }
    }
}

/// A pointer entry gives back what it was made of.
proof fn lemma_pointer(st: int, sb: int, tb: int)
    requires
        0 <= st,
        0 <= sb < 16,
        0 <= tb < 16,
    ensures
        pointer_start(pointer(st, sb, tb)) == st,
        pointer_bits(pointer(st, sb, tb)) == sb,
        is_pointer(pointer(st, sb, tb)),
        pointer(st, sb, tb) % 256 == tb,
{
    let e = pointer(st, sb, tb);
    assert(e == 256 * (st * 256 + 192 + sb) + tb);
    assert(e / 256 == st * 256 + 192 + sb);
    assert(st * 256 + 192 + sb == 64 * (st * 4 + 3) + sb);
    assert((st * 256 + 192 + sb) % 64 == sb);
    assert(e / 16384 == st * 4 + 3);
    assert((st * 4 + 3) % 2 == 1);
}

/// A single sorted symbol of length 1 is the lone symbol of the code, and a
/// lone symbol is sorted alone.
proof fn lemma_lone_sorted(lens: Seq<u8>, sorted: Seq<u16>, starts: Seq<u32>)
    requires
        codes::bounded(lens),
        sorted_ok(lens, sorted, starts, 16, 0),
    ensures
        sorted.len() == 1 && lens[sorted[0] as int] == 1 ==> codes::lone(lens, sorted[0] as int),
        (exists|s: int| codes::lone(lens, s)) ==> sorted.len() == 1 && lens[sorted[0] as int] == 1,
{
    lemma2_to64();
    if sorted.len() == 1 && lens[sorted[0] as int] == 1 {
        let s = sorted[0] as int;
        assert(codes::used(lens, s));
        assert(linked(lens, sorted, starts, 16, 0, 0));
        assert forall|t: int| codes::used(lens, t) implies t == s by {
            codes::lemma_share_in_kraft(lens, t);
            codes::lemma_weight_pos(lens[t] as int);
            if t != s {
                if lens[t] == 1 && t < s {
                    codes::lemma_shares_ordered(lens, t, s);
                } else {
                    codes::lemma_shares_ordered(lens, s, t);
                }
            }
        }
    }
    if exists|s: int| codes::lone(lens, s) {
        let s = choose|s: int| codes::lone(lens, s);
        codes::lemma_lone_kraft(lens, s, lens.len());
        assert(sorted.len() > 0);
        assert(codes::used(lens, sorted[0] as int));
        if sorted.len() > 1 {
            assert(codes::used(lens, sorted[1] as int));
            assert(linked(lens, sorted, starts, 16, 0, 0));
            codes::lemma_weight_pos(1);
        }
    }
}

/// Enter the codewords of at most `tb` bits. Returns the index of the first
/// sorted symbol with a longer one.
fn fill_short(
    table: &mut [u32],
    lens: &[u8],
    results: &[u32],
    tb: u32,
    sorted: &Vec<u16>,
    starts: &Vec<u32>,
) -> (k: usize)
    requires
        codes::bounded(lens@),
        codes::complete(lens@),
        lens@.len() <= 288,
        lens@.len() <= results@.len(),
        results_ok(results@),
        sorted_ok(lens@, sorted@, starts@, 16, 0),
        1 <= tb < 15,
        pow2(tb as nat) <= old(table)@.len() <= 16384,
    ensures
        final(table)@.len() == old(table)@.len(),
        k <= sorted@.len(),
        k < sorted@.len() ==> lens@[sorted@[k as int] as int] > tb,
        covered_short(final(table)@, tb as nat, results@, lens@, start_at(starts@, k as int)),
        k > 0 ==> start_at(starts@, k as int) % (pow2((15 - tb) as nat) as int) == 0,
{
    let size: usize = pow2_u32(tb) as usize;
    let mut k: usize = 0;
    proof {
        assert forall|x: int| 0 <= x < 32768 && bits::rev(x, 15) < 0 implies #[trigger] reads_short(
            table@,
            tb as nat,
            results@,
            lens@,
            x,
        ) by {
            bits::lemma_rev_bound(x, 15);
        }
    }
    while k < sorted.len() && lens[sorted[k] as usize] as u32 <= tb
        invariant
            codes::bounded(lens@),
            codes::complete(lens@),
            lens@.len() <= 288,
            lens@.len() <= results@.len(),
            results_ok(results@),
            sorted_ok(lens@, sorted@, starts@, 16, 0),
            1 <= tb < 15,
            size == pow2(tb as nat),
            size <= table@.len() <= 16384,
            table@.len() == old(table)@.len(),
            k <= sorted@.len(),
            forall|i: int| 0 <= i < sorted@.len() ==> codes::used(lens@, #[trigger] sorted@[i] as int),
            covered_short(table@, tb as nat, results@, lens@, start_at(starts@, k as int)),
            k > 0 ==> start_at(starts@, k as int) % (pow2((15 - tb) as nat) as int) == 0,
        decreases sorted@.len() - k,
    {
        let sym: usize = sorted[k] as usize;
        proof {
            assert(codes::used(lens@, sorted@[k as int] as int));
            codes::lemma_codeword(lens@, sym as int);
            codes::lemma_weight_pos(lens@[sym as int] as int);
        }
        let l: u8 = lens[sym];
        let c: u32 = starts[k] / pow2_u32((15 - l) as u32);
        let r: u32 = reverse_codeword(c, l);
        proof {
            assert(!is_pointer(entry(results@[sym as int] as int, l as int)));
            lemma2_to64();
            lemma_pow2_strictly_increases(l as nat, 15);
        }
        let e: u32 = results[sym] + l as u32 * 257;
        let ghost before = table@;
        fill_stride(table, 0, size, r as usize, pow2_u32(l as u32) as usize, e);
        proof {
            assert forall|i: int| 0 <= i < pow2(tb as nat) implies #[trigger] table@[i] == if i % (pow2(
                lens@[sym as int] as nat,
            ) as int) == bits::rev(codes::codeword(lens@, sym as int), lens@[sym as int] as nat) {
                entry(results@[sym as int] as int, lens@[sym as int] as int)
            } else {
                before[i] as int
            } by {
                assert(table@[0 + i] == if i % (pow2(l as nat) as int) == r {
                    e
                } else {
                    before[0 + i]
                });
            }
            lemma_cover_short(before, table@, tb as nat, results@, lens@, sym as int);
            assert(linked(lens@, sorted@, starts@, 16, 0, k as int));
            // the end of a short codeword's share is a multiple of a long group's
            let w = codes::weight(l as int);
            let gi = pow2((15 - tb) as nat) as int;
            lemma_pow2_pos((15 - tb) as nat);
            lemma_pow2_adds((15 - tb) as nat, (tb - l) as nat);
            let f = pow2((tb - l) as nat) as int;
            let q = codes::codeword(lens@, sym as int) + 1;
            assert(q * w == (q * f) * gi) by (nonlinear_arith)
                requires
                    w == gi * f,
            ;
            lemma_mod_multiples_basic(q * f, gi);
        }
        k = k + 1;
    }
    k
}

/// Build the decode table of the code with the given codeword lengths.
///
/// Returns false, and leaves the table unusable, where the lengths do not form
/// a code that can be decoded.
pub fn build_decode_table(
    decode_table: &mut [u32],
    lens: &[u8],
    decode_results: &[u32],
    table_bits: u32,
    max_codeword_len: u32,
) -> (ok: bool)
    requires
        1 <= lens@.len() <= 288,
        lens@.len() <= decode_results@.len(),
        results_ok(decode_results@),
        1 <= table_bits < 15,
        max_codeword_len <= 15,
        forall|s: int| 0 <= s < lens@.len() ==> #[trigger] lens@[s] <= max_codeword_len,
        table_fits(
            old(decode_table)@.len() as int,
            table_bits as nat,
            lens@.len() as int,
            max_codeword_len as int,
        ),
    ensures
        final(decode_table)@.len() == old(decode_table)@.len(),
        ok == codes::decodable(lens@),
        ok == grammar::allowed(lens@),
        ok ==> table_ok(final(decode_table)@, table_bits as nat, decode_results@, lens@),
{
    let mut sorted: Vec<u16> = Vec::new();
    let mut starts: Vec<u32> = Vec::new();
    let total: u32 = sort_symbols(lens, &mut sorted, &mut starts);
    let size: usize = pow2_u32(table_bits) as usize;
    proof {
        grammar::law_codes_allowed(lens@);
        lemma_lone_sorted(lens@, sorted@, starts@);
        if exists|s: int| codes::lone(lens@, s) {
            let s = choose|s: int| codes::lone(lens@, s);
            codes::lemma_lone_kraft(lens@, s, lens@.len());
        }
        lemma_pow2_pos(table_bits as nat);
    }
    if total > 32768 {
        return false;
    }
    if total < 32768 {
        // An incomplete code: only an empty one and a lone codeword of one bit
        // are allowed.
        let sym: usize = if total == 0 {
            0
        } else if sorted.len() == 1 && lens[sorted[0] as usize] == 1 {
            sorted[0] as usize
        } else {
            return false;
        };
        proof {
            assert(!is_pointer(entry(decode_results@[sym as int] as int, 1)));
        }
        let e: u32 = decode_results[sym] + 257;
        let ghost before = decode_table@;
        fill_stride(decode_table, 0, size, 0, 1, e);
        proof {
            assert forall|x: int| 0 <= x < 32768 implies #[trigger] reads(
                decode_table@,
                table_bits as nat,
                decode_results@,
                lens@,
                x,
                decode_table@.len() as int,
            ) by {
                let i = x % (pow2(table_bits as nat) as int);
                lemma_mod_bound(x, pow2(table_bits as nat) as int);
                assert(i % 1 == 0);
                assert(decode_table@[0 + i] == if i % 1 == 0 {
                    e
                } else {
                    before[0 + i]
                });
            }
        }
        return true;
    }
    let mut k: usize = fill_short(
        decode_table,
        lens,
        decode_results,
        table_bits,
        &sorted,
        &starts,
    );
    let mut end: usize = size;
    proof {
        assert forall|x: int|
            0 <= x < 32768 && bits::rev(x, 15) < start_at(starts@, k as int) implies #[trigger] reads(
            decode_table@,
            table_bits as nat,
            decode_results@,
            lens@,
            x,
            end as int,
        ) by {
            assert(reads_short(
                decode_table@,
                table_bits as nat,
                decode_results@,
                lens@,
                x,
            ));
        }
        if k == 0 && sorted@.len() > 0 {
            lemma_pow2_pos((15 - table_bits) as nat);
            lemma_small_mod(0, pow2((15 - table_bits) as nat));
        }
        if k < sorted@.len() {
            assert(codes::used(lens@, sorted@[k as int] as int));
        }
    }
    let ghost room = if max_codeword_len > table_bits {
        pow2((max_codeword_len - table_bits) as nat) as int
    } else {
        0
    };
    proof {
        assert(room >= 0);
        assert(0 <= k * room) by (nonlinear_arith)
            requires
                k >= 0,
                room >= 0,
        ;
    }
    while k < sorted.len()
        invariant
            codes::bounded(lens@),
            codes::complete(lens@),
            lens@.len() <= 288,
            lens@.len() <= decode_results@.len(),
            results_ok(decode_results@),
            sorted_ok(lens@, sorted@, starts@, 16, 0),
            1 <= table_bits < 15,
            max_codeword_len <= 15,
            forall|s: int| 0 <= s < lens@.len() ==> #[trigger] lens@[s] <= max_codeword_len,
            k <= sorted@.len() <= lens@.len(),
            k < sorted@.len() ==> lens@[sorted@[k as int] as int] > table_bits,
            k < sorted@.len() ==> starts@[k as int] as int % (pow2(
                (15 - table_bits) as nat,
            ) as int) == 0,
            k < sorted@.len() ==> max_codeword_len > table_bits,
            pow2(table_bits as nat) <= end,
            end <= decode_table@.len() <= 16384,
            decode_table@.len() == old(decode_table)@.len(),
            room == if max_codeword_len > table_bits {
                pow2((max_codeword_len - table_bits) as nat) as int
            } else {
                0
            },
            2 * (end - pow2(table_bits as nat)) <= k * room,
            k < sorted@.len() ==> 2 * (decode_table@.len() - pow2(table_bits as nat))
                >= lens@.len() * room,
            covered(
                decode_table@,
                table_bits as nat,
                decode_results@,
                lens@,
                start_at(starts@, k as int),
                end as int,
            ),
        decreases sorted@.len() - k,
    {
        let ghost k0 = k as int;
        proof {
            // two more symbols leave room for one more subtable
            if k0 + 2 <= lens@.len() {
                assert((k0 + 2) * room <= lens@.len() * room) by (nonlinear_arith)
                    requires
                        k0 + 2 <= lens@.len(),
                        room >= 0,
                ;
            }
            assert((k0 + 2) * room == k0 * room + 2 * room) by (nonlinear_arith);
            lemma_at_least_two(lens@, sorted@, starts@, table_bits as nat, k0);
        }
        let r: (usize, usize) = add_subtable(
            decode_table,
            lens,
            decode_results,
            table_bits,
            max_codeword_len,
            &sorted,
            &starts,
            k,
            end,
        );
        proof {
            let k1 = r.0 as int;
            assert(k1 * room >= (k0 + 2) * room) by (nonlinear_arith)
                requires
                    k1 >= k0 + 2,
                    room >= 0,
            ;
            if k1 < sorted@.len() {
                assert(lens@[sorted@[k0] as int] <= lens@[sorted@[k1] as int]);
                assert(codes::used(lens@, sorted@[k1] as int));
            }
        }
        k = r.0;
        end = r.1;
    }
    proof {
        assert forall|x: int| 0 <= x < 32768 implies #[trigger] reads(
            decode_table@,
            table_bits as nat,
            decode_results@,
            lens@,
            x,
            decode_table@.len() as int,
        ) by {
            bits::lemma_rev_bound(x, 15);
            lemma2_to64();
            assert(reads(
                decode_table@,
                table_bits as nat,
                decode_results@,
                lens@,
                x,
                end as int,
            ));
        }
    }
    true
}

/// A group of long codewords has at least two of them.
proof fn lemma_at_least_two(lens: Seq<u8>, sorted: Seq<u16>, starts: Seq<u32>, tb: nat, k: int)
    requires
        codes::bounded(lens),
        codes::complete(lens),
        sorted_ok(lens, sorted, starts, 16, 0),
        1 <= tb < 15,
        0 <= k < sorted.len(),
        lens[sorted[k] as int] > tb,
        starts[k] as int % (pow2((15 - tb) as nat) as int) == 0,
    ensures
        k + 2 <= sorted.len(),
{
    if k + 1 == sorted.len() {
        let s = sorted[k] as int;
        assert(codes::used(lens, s));
        assert(linked(lens, sorted, starts, 16, 0, k));
        let gi = pow2((15 - tb) as nat) as int;
        let t = starts[k] as int / gi;
        lemma_group(lens, s, tb, t);
        lemma_group_end_div(t, tb, lens[s] as nat);
        codes::lemma_weight_pos(lens[s] as int);
    }
}

} // verus!
