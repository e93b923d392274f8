//! Canonical prefix codes described by their codeword lengths.
//!
//! A code is a sequence of lengths, one per symbol, 0 for a symbol that is not
//! used. Symbols are ordered by length first and by value second; each takes a
//! share of the number line from 0 to 2^15 in that order, a codeword of length
//! `l` the share 2^(15 - l). A symbol's codeword is the common binary prefix of
//! the 15-bit numbers in its share.

use crate::bits;
use vstd::arithmetic::power2::*;
use vstd::prelude::*;

verus! {

/// The size of the whole number line.
pub open spec fn line() -> int {
    32768
}

/// The share of the number line of a codeword of length `l`.
pub open spec fn weight(l: int) -> int {
    if l == 0 {
        0
    } else {
        pow2((15 - l) as nat) as int
    }
}

/// Every length is at most 15.
pub open spec fn bounded(lens: Seq<u8>) -> bool {
    forall|s: int| 0 <= s < lens.len() ==> #[trigger] lens[s] <= 15
}

pub open spec fn used(lens: Seq<u8>, s: int) -> bool {
    0 <= s < lens.len() && lens[s] > 0
}

/// Symbol `s` is used and comes before the place (`l`, `sym`) in the canonical order.
pub open spec fn before(lens: Seq<u8>, l: int, sym: int, s: int) -> bool {
    lens[s] > 0 && (lens[s] < l || (lens[s] == l && s < sym))
}

/// The total share of the symbols below `n` that come before the place (`l`, `sym`).
pub open spec fn mass(lens: Seq<u8>, l: int, sym: int, n: nat) -> int
    decreases n,
{
    if n == 0 {
        0
    } else {
        mass(lens, l, sym, (n - 1) as nat) + if before(lens, l, sym, n - 1) {
            weight(lens[n - 1] as int)
        } else {
            0
        }
    }
}

/// Where the share of symbol `s` starts.
pub open spec fn start(lens: Seq<u8>, s: int) -> int {
    mass(lens, lens[s] as int, s, lens.len())
}

/// The total share of all symbols.
pub open spec fn kraft(lens: Seq<u8>) -> int {
    mass(lens, 16, 0, lens.len())
}

/// The codeword of symbol `s` as a number of `lens[s]` binary digits.
pub open spec fn codeword(lens: Seq<u8>, s: int) -> int {
    start(lens, s) / weight(lens[s] as int)
}

/// The 15-bit number `w` lies in the share of symbol `s`.
pub open spec fn hits(lens: Seq<u8>, s: int, w: int) -> bool {
    &&& used(lens, s)
    &&& start(lens, s) <= w < start(lens, s) + weight(lens[s] as int)
}

/// The shares fill the number line.
pub open spec fn complete(lens: Seq<u8>) -> bool {
    kraft(lens) == line()
}

/// `s` is the only used symbol and has length 1.
pub open spec fn lone(lens: Seq<u8>, s: int) -> bool {
    &&& used(lens, s)
    &&& lens[s] == 1
    &&& forall|t: int| used(lens, t) ==> t == s
}

/// The codes that can be decoded: the complete ones, the code without symbols
/// and the code with a single symbol of length 1.
pub open spec fn decodable(lens: Seq<u8>) -> bool {
    ||| complete(lens)
    ||| kraft(lens) == 0
    ||| exists|s: int| lone(lens, s)
}

/// The symbol that the next 15 bits `w` of a stream start with, and how many
/// bits it takes. A code without symbols reads as symbol 0 of one bit; a lone
/// symbol is read whatever its bit is.
pub open spec fn next_sym(lens: Seq<u8>, w: int) -> (int, int) {
    if complete(lens) {
        let s = choose|s: int| hits(lens, s, w);
        (s, lens[s] as int)
    } else if kraft(lens) == 0 {
        (0, 1)
    } else {
        (choose|s: int| lone(lens, s), 1)
    }
}

pub proof fn lemma_weight_pos(l: int)
    requires
        0 <= l <= 15,
    ensures
        weight(l) >= 0,
        l > 0 ==> weight(l) >= 1,
        l > 0 ==> weight(l) * pow2(l as nat) == line(),
        l > 0 ==> weight(l) <= 16384,
{
    if l > 0 {
        lemma_pow2_pos((15 - l) as nat);
        lemma_pow2_adds((15 - l) as nat, l as nat);
        lemma2_to64();
        assert(weight(l) <= 16384) by {
            if l == 1 {
            } else {
                vstd::arithmetic::power2::lemma_pow2_strictly_increases((15 - l) as nat, 14);
            }
        }
    }
}

pub proof fn lemma_mass_nonneg(lens: Seq<u8>, l: int, sym: int, n: nat)
    requires
        bounded(lens),
        n <= lens.len(),
    ensures
        0 <= mass(lens, l, sym, n) <= n * 16384,
    decreases n,
{
    if n > 0 {
        lemma_mass_nonneg(lens, l, sym, (n - 1) as nat);
        lemma_weight_pos(lens[n - 1] as int);
    }
}

/// A later place has at least as much before it.
pub proof fn lemma_mass_mono(lens: Seq<u8>, l1: int, s1: int, l2: int, s2: int, n: nat)
    requires
        bounded(lens),
        n <= lens.len(),
        l1 < l2 || (l1 == l2 && s1 <= s2),
    ensures
        mass(lens, l1, s1, n) <= mass(lens, l2, s2, n),
    decreases n,
{
    if n > 0 {
        lemma_mass_mono(lens, l1, s1, l2, s2, (n - 1) as nat);
        lemma_weight_pos(lens[n - 1] as int);
    }
}

/// Moving the place past one symbol adds that symbol's share.
pub proof fn lemma_mass_step(lens: Seq<u8>, l: int, sym: int, n: nat)
    requires
        n <= lens.len(),
        0 <= sym,
        l >= 1,
    ensures
        mass(lens, l, sym + 1, n) == mass(lens, l, sym, n) + if sym < n && lens[sym] == l {
            weight(l)
        } else {
            0
        },
    decreases n,
{
    if n > 0 {
        lemma_mass_step(lens, l, sym, (n - 1) as nat);
    }
}

/// Past the last symbol of one length comes the first place of the next length.
pub proof fn lemma_mass_next_len(lens: Seq<u8>, l: int, m: int, n: nat)
    requires
        n <= lens.len(),
        m >= n,
    ensures
        mass(lens, l + 1, 0, n) == mass(lens, l, m, n),
    decreases n,
{
    if n > 0 {
        lemma_mass_next_len(lens, l, m, (n - 1) as nat);
    }
}

pub proof fn lemma_mass_first(lens: Seq<u8>, n: nat)
    requires
        n <= lens.len(),
    ensures
        mass(lens, 1, 0, n) == 0,
        mass(lens, 0, 0, n) == 0,
    decreases n,
{
    if n > 0 {
        lemma_mass_first(lens, (n - 1) as nat);
    }
}

/// The shares of two symbols do not overlap, and lie in canonical order.
pub proof fn lemma_shares_ordered(lens: Seq<u8>, s: int, t: int)
    requires
        bounded(lens),
        used(lens, s),
        used(lens, t),
        lens[s] < lens[t] || (lens[s] == lens[t] && s < t),
    ensures
        start(lens, s) + weight(lens[s] as int) <= start(lens, t),
{
    lemma_mass_step(lens, lens[s] as int, s, lens.len());
    lemma_mass_mono(lens, lens[s] as int, s + 1, lens[t] as int, t, lens.len());
}

pub proof fn lemma_hits_unique(lens: Seq<u8>, s: int, t: int, w: int)
    requires
        bounded(lens),
        hits(lens, s, w),
        hits(lens, t, w),
    ensures
        s == t,
{
    if s != t {
        if lens[s] < lens[t] || (lens[s] == lens[t] && s < t) {
            lemma_shares_ordered(lens, s, t);
        } else {
            lemma_shares_ordered(lens, t, s);
        }
    }
}

/// A share ends within the total.
pub proof fn lemma_share_in_kraft(lens: Seq<u8>, s: int)
    requires
        bounded(lens),
        used(lens, s),
    ensures
        0 <= start(lens, s),
        start(lens, s) + weight(lens[s] as int) <= kraft(lens),
{
    lemma_mass_nonneg(lens, lens[s] as int, s, lens.len());
    lemma_mass_step(lens, lens[s] as int, s, lens.len());
    lemma_mass_mono(lens, lens[s] as int, s + 1, 16, 0, lens.len());
}

/// Every number below the total share of the places before (`l`, `sym`) lies in
/// some symbol's share.
pub proof fn lemma_find_hit(lens: Seq<u8>, l: int, sym: int, w: int) -> (s: int)
    requires
        bounded(lens),
        1 <= l,
        0 <= sym <= lens.len(),
        0 <= w < mass(lens, l, sym, lens.len()),
    ensures
        hits(lens, s, w),
    decreases l, sym,
{
    let n = lens.len();
    if sym == 0 {
        if l == 1 {
            lemma_mass_first(lens, n);
            0
        } else {
            lemma_mass_next_len(lens, l - 1, n as int, n);
            lemma_find_hit(lens, l - 1, n as int, w)
        }
    } else {
        lemma_mass_step(lens, l, sym - 1, n);
        if w < mass(lens, l, sym - 1, n) {
            lemma_find_hit(lens, l, sym - 1, w)
        } else {
            sym - 1
        }
    }
}

pub proof fn lemma_mass_div(lens: Seq<u8>, l: int, sym: int, n: nat)
    requires
        bounded(lens),
        n <= lens.len(),
        1 <= l <= 15,
    ensures
        mass(lens, l, sym, n) % weight(l) == 0,
    decreases n,
{
    lemma_weight_pos(l);
    let d = weight(l);
    if n > 0 {
        lemma_mass_div(lens, l, sym, (n - 1) as nat);
        let a = mass(lens, l, sym, (n - 1) as nat);
        if before(lens, l, sym, n - 1) {
            let k = lens[n - 1] as int;
            lemma_pow2_adds((15 - l) as nat, (l - k) as nat);
            let e = pow2((l - k) as nat) as int;
            assert((15 - l) as nat + (l - k) as nat == (15 - k) as nat);
            assert(weight(k) == d * e);
            vstd::arithmetic::div_mod::lemma_mod_multiples_basic(e, d);
            vstd::arithmetic::mul::lemma_mul_is_commutative(e, d);
            vstd::arithmetic::div_mod::lemma_add_mod_noop(a, d * e, d);
            assert((0int + 0int) % d == 0) by {
                vstd::arithmetic::div_mod::lemma_small_mod(0, d as nat);
            }
        }
    } else {
        vstd::arithmetic::div_mod::lemma_small_mod(0, d as nat);
    }
}

/// A share starts at a multiple of its size, so that its numbers are those that
/// begin with the codeword.
pub proof fn lemma_codeword(lens: Seq<u8>, s: int)
    requires
        bounded(lens),
        used(lens, s),
        kraft(lens) <= line(),
    ensures
        codeword(lens, s) * weight(lens[s] as int) == start(lens, s),
        (codeword(lens, s) + 1) * weight(lens[s] as int) == start(lens, s) + weight(
            lens[s] as int,
        ),
        0 <= codeword(lens, s) < pow2(lens[s] as nat),
{
    let l = lens[s] as int;
    lemma_weight_pos(l);
    lemma_mass_div(lens, l, s, lens.len());
    lemma_share_in_kraft(lens, s);
    let d = weight(l);
    let c = codeword(lens, s);
    vstd::arithmetic::div_mod::lemma_fundamental_div_mod(start(lens, s), d);
    vstd::arithmetic::mul::lemma_mul_is_commutative(d, c);
    assert((c + 1) * d == c * d + d) by (nonlinear_arith);
    assert(0 <= c) by (nonlinear_arith)
        requires
            c == start(lens, s) / d,
            start(lens, s) >= 0,
            d > 0,
    ;
    let e = pow2(l as nat) as int;
    assert(c < e) by (nonlinear_arith)
        requires
            (c + 1) * d <= d * e,
            d > 0,
    ;
}

/// A symbol hit by a window below the total is the one that a complete code reads.
pub proof fn lemma_next_sym_hit(lens: Seq<u8>, s: int, w: int)
    requires
        bounded(lens),
        complete(lens),
        hits(lens, s, w),
    ensures
        next_sym(lens, w) == (s, lens[s] as int),
{
    let t = choose|t: int| hits(lens, t, w);
    lemma_hits_unique(lens, s, t, w);
}

/// What a decodable code reads is a symbol of the code of 1 to 15 bits.
pub proof fn lemma_next_sym_range(lens: Seq<u8>, w: int)
    requires
        bounded(lens),
        decodable(lens),
        lens.len() > 0,
        0 <= w < line(),
    ensures
        0 <= next_sym(lens, w).0 < lens.len(),
        1 <= next_sym(lens, w).1 <= 15,
        complete(lens) ==> hits(lens, next_sym(lens, w).0, w),
{
    if complete(lens) {
        let s = lemma_find_hit(lens, 16, 0, w);
        assert(hits(lens, s, w));
    }
}

/// A code is not at once complete and empty, and a lone symbol fills half of
/// the number line.
pub proof fn lemma_lone_kraft(lens: Seq<u8>, s: int, n: nat)
    requires
        bounded(lens),
        lone(lens, s),
        n <= lens.len(),
    ensures
        mass(lens, 16, 0, n) == if s < n {
            16384int
        } else {
            0
        },
    decreases n,
{
    lemma2_to64();
    if n > 0 {
        lemma_lone_kraft(lens, s, (n - 1) as nat);
        if n - 1 != s {
            assert(!used(lens, n - 1));
        }
    }
}

/// The code of no used symbols has no share, and only that code.
pub proof fn lemma_empty_kraft(lens: Seq<u8>, n: nat)
    requires
        bounded(lens),
        n <= lens.len(),
    ensures
        mass(lens, 16, 0, n) == 0 <==> forall|s: int| 0 <= s < n ==> lens[s] == 0,
    decreases n,
{
    if n > 0 {
        lemma_empty_kraft(lens, (n - 1) as nat);
        lemma_weight_pos(lens[n - 1] as int);
        lemma_mass_nonneg(lens, 16, 0, (n - 1) as nat);
        if lens[n - 1] == 0 {
        } else {
            assert(mass(lens, 16, 0, n) > 0);
            assert(0 <= n - 1 < n && lens[n - 1] != 0);
        }
    }
}

/// The 15-bit window at `p` starts with the codeword of `s` exactly where the
/// bits at `p`, read as a little-endian number, end in the reversed codeword.
pub proof fn lemma_window_codeword(lens: Seq<u8>, s: int, x: int)
    requires
        bounded(lens),
        used(lens, s),
        kraft(lens) <= line(),
        0 <= x < line(),
    ensures
        hits(lens, s, bits::rev(x, 15)) <==> x % (pow2(lens[s] as nat) as int) == bits::rev(
            codeword(lens, s),
            lens[s] as nat,
        ),
{
    lemma_codeword(lens, s);
    lemma2_to64();
    bits::lemma_rev_prefix(x, codeword(lens, s), lens[s] as nat, 15);
}

/// Bits that begin with a symbol's codeword, first digit first, read as that symbol.
pub proof fn lemma_read_codeword(lens: Seq<u8>, s: int, bits: Seq<bool>, p: int)
    requires
        bounded(lens),
        used(lens, s),
        kraft(lens) <= line(),
        bits::be_val(bits, p, lens[s] as nat) == codeword(lens, s),
    ensures
        hits(lens, s, bits::be_val(bits, p, 15)),
        complete(lens) ==> next_sym(lens, bits::be_val(bits, p, 15)) == (s, lens[s] as int),
        lone(lens, s) ==> next_sym(lens, bits::be_val(bits, p, 15)) == (s, 1int),
{
    let l = lens[s] as nat;
    let m = (15 - l) as nat;
    lemma_codeword(lens, s);
    bits::lemma_be_split(bits, p, l, m);
    assert(l + m == 15);
    bits::lemma_be_bound(bits, p + l, m);
    if complete(lens) {
        lemma_next_sym_hit(lens, s, bits::be_val(bits, p, 15));
    }
    if lone(lens, s) {
        lemma_lone_kraft(lens, s, lens.len());
    }
}

/// Giving an unused symbol a length adds the share of that length.
pub proof fn lemma_kraft_update(lens: Seq<u8>, s: int, l: u8, n: nat)
    requires
        0 <= s < lens.len(),
        n <= lens.len(),
        lens[s] == 0,
        1 <= l <= 15,
    ensures
        mass(lens.update(s, l), 16, 0, n) == mass(lens, 16, 0, n) + if s < n {
            weight(l as int)
        } else {
            0
        },
    decreases n,
{
    if n > 0 {
        lemma_kraft_update(lens, s, l, (n - 1) as nat);
    }
}

/// Every used symbol has its codeword, written with the first digit in the
/// lowest bit.
pub open spec fn has_codewords(lens: Seq<u8>, codewords: Seq<u32>) -> bool {
    &&& codewords.len() == lens.len()
    &&& forall|s: int|
        used(lens, s) ==> #[trigger] codewords[s] == bits::rev(codeword(lens, s), lens[s] as nat)
}

/// Symbols of length 0 at the end do not matter: shares are the same without them.
pub proof fn lemma_trim_mass(lens: Seq<u8>, m: nat, l: int, sym: int, n: nat)
    requires
        m <= n <= lens.len(),
        forall|s: int| m <= s < lens.len() ==> lens[s] == 0,
    ensures
        mass(lens.take(m as int), l, sym, m) == mass(lens, l, sym, n),
    decreases n,
{
    if n == m {
        lemma_mass_same(lens.take(m as int), lens, l, sym, m);
    } else {
        lemma_trim_mass(lens, m, l, sym, (n - 1) as nat);
        assert(lens[n - 1] == 0);
    }
}

proof fn lemma_mass_same(a: Seq<u8>, b: Seq<u8>, l: int, sym: int, n: nat)
    requires
        n <= a.len(),
        n <= b.len(),
        forall|s: int| 0 <= s < n ==> a[s] == b[s],
    ensures
        mass(a, l, sym, n) == mass(b, l, sym, n),
    decreases n,
{
    if n > 0 {
        lemma_mass_same(a, b, l, sym, (n - 1) as nat);
        assert(a[n - 1] == b[n - 1]);
    }
}

/// A code without unused symbols at its end is the same code.
pub proof fn lemma_trim(lens: Seq<u8>, m: nat)
    requires
        m <= lens.len(),
        forall|s: int| m <= s < lens.len() ==> lens[s] == 0,
    ensures
        kraft(lens.take(m as int)) == kraft(lens),
        forall|s: int| used(lens, s) ==> s < m,
        forall|s: int| 0 <= s < m ==> #[trigger] codeword(lens.take(m as int), s) == codeword(lens, s),
{
    lemma_trim_mass(lens, m, 16, 0, lens.len());
    assert forall|s: int| 0 <= s < m implies #[trigger] codeword(lens.take(m as int), s) == codeword(
        lens,
        s,
    ) by {
        lemma_trim_mass(lens, m, lens[s] as int, s, lens.len());
    }
}

} // verus!
