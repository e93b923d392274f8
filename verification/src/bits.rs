//! Bit streams as sequences, and the numbers read from them.
//!
//! A stream is a finite sequence of bits followed by an endless run of zeros.
//! DEFLATE reads plain fields least significant bit first (`le_val`) and
//! Huffman codewords most significant bit first (`be_val`).

use vstd::arithmetic::power2::*;
use vstd::prelude::*;

verus! {

/// The bit at position `i` as a number; positions outside the sequence hold 0.
pub open spec fn bit(s: Seq<bool>, i: int) -> int {
    if 0 <= i < s.len() && s[i] {
        1
    } else {
        0
    }
}

/// The `n` bits from position `p` on as a number, the first bit least significant.
pub open spec fn le_val(s: Seq<bool>, p: int, n: nat) -> int
    decreases n,
{
    if n == 0 {
        0
    } else {
        bit(s, p) + 2 * le_val(s, p + 1, (n - 1) as nat)
    }
}

/// The `n` bits from position `p` on as a number, the first bit most significant.
pub open spec fn be_val(s: Seq<bool>, p: int, n: nat) -> int
    decreases n,
{
    if n == 0 {
        0
    } else {
        bit(s, p) * pow2((n - 1) as nat) + be_val(s, p + 1, (n - 1) as nat)
    }
}

/// The number whose `n` binary digits are those of `x` in reverse order.
pub open spec fn rev(x: int, n: nat) -> int
    decreases n,
{
    if n == 0 {
        0
    } else {
        (x % 2) * pow2((n - 1) as nat) + rev(x / 2, (n - 1) as nat)
    }
}

/// Bit `i` of the number `x`.
pub open spec fn num_bit(x: int, i: nat) -> bool {
    (x / pow2(i) as int) % 2 == 1
}

/// The low `n` bits of `x`, least significant first.
pub open spec fn num_bits(x: int, n: nat) -> Seq<bool> {
    Seq::new(n, |i: int| num_bit(x, i as nat))
}

/// The bits of a byte sequence, each byte least significant bit first.
pub open spec fn to_bits(data: Seq<u8>) -> Seq<bool> {
    Seq::new(8 * data.len(), |i: int| num_bit(data[i / 8] as int, (i % 8) as nat))
}

pub proof fn lemma_le_bound(s: Seq<bool>, p: int, n: nat)
    ensures
        0 <= le_val(s, p, n) < pow2(n),
    decreases n,
{
    if n == 0 {
        lemma_pow2_pos(0);
    } else {
        lemma_le_bound(s, p + 1, (n - 1) as nat);
        lemma_pow2_unfold(n);
    }
}

pub proof fn lemma_be_bound(s: Seq<bool>, p: int, n: nat)
    ensures
        0 <= be_val(s, p, n) < pow2(n),
    decreases n,
{
    if n == 0 {
        lemma_pow2_pos(0);
    } else {
        lemma_be_bound(s, p + 1, (n - 1) as nat);
        lemma_pow2_unfold(n);
        lemma_pow2_pos((n - 1) as nat);
        let q = pow2((n - 1) as nat) as int;
        let b = bit(s, p);
        assert(b == 0 || b == 1);
        assert(b * q == if b == 1 { q } else { 0 });
    }
}

pub proof fn lemma_rev_bound(x: int, n: nat)
    requires
        0 <= x,
    ensures
        0 <= rev(x, n) < pow2(n),
    decreases n,
{
    if n == 0 {
        lemma_pow2_pos(0);
    } else {
        lemma_rev_bound(x / 2, (n - 1) as nat);
        lemma_pow2_unfold(n);
        lemma_pow2_pos((n - 1) as nat);
        let q = pow2((n - 1) as nat) as int;
        let b = x % 2;
        assert(b * q == if b == 1 { q } else { 0 });
    }
}

pub proof fn lemma_le_split(s: Seq<bool>, p: int, a: nat, b: nat)
    ensures
        le_val(s, p, a + b) == le_val(s, p, a) + pow2(a) * le_val(s, p + a, b),
    decreases a,
{
    if a == 0 {
        lemma2_to64();
        assert(1 * le_val(s, p, b) == le_val(s, p, b));
    } else {
        let a1 = (a - 1) as nat;
        lemma_le_split(s, p + 1, a1, b);
        lemma_pow2_unfold(a);
        let y = le_val(s, p + a, b);
        assert(p + 1 + a1 == p + a);
        assert((a + b - 1) as nat == a1 + b);
        assert(2 * (pow2(a1) * y) == pow2(a) * y) by (nonlinear_arith)
            requires
                pow2(a) == 2 * pow2(a1),
        ;
    }
}

pub proof fn lemma_be_split(s: Seq<bool>, p: int, a: nat, b: nat)
    ensures
        be_val(s, p, a + b) == be_val(s, p, a) * pow2(b) + be_val(s, p + a, b),
    decreases a,
{
    if a == 0 {
        assert(0 * pow2(b) == 0) by (nonlinear_arith);
    } else {
        let a1 = (a - 1) as nat;
        lemma_be_split(s, p + 1, a1, b);
        lemma_pow2_adds(a1, b);
        assert(p + 1 + a1 == p + a);
        assert((a + b - 1) as nat == a1 + b);
        let x = be_val(s, p + 1, a1);
        let c = bit(s, p);
        assert((c * pow2(a1) + x) * pow2(b) == c * pow2(a1 + b) + x * pow2(b))
            by (nonlinear_arith)
            requires
                pow2(a1) * pow2(b) == pow2(a1 + b),
        ;
    }
}

/// Reading `n` bits in the other bit order reverses the number.
pub proof fn lemma_rev_le(s: Seq<bool>, p: int, n: nat)
    ensures
        rev(le_val(s, p, n), n) == be_val(s, p, n),
    decreases n,
{
    if n > 0 {
        let y = le_val(s, p + 1, (n - 1) as nat);
        let b = bit(s, p);
        assert((b + 2 * y) % 2 == b && (b + 2 * y) / 2 == y);
        lemma_rev_le(s, p + 1, (n - 1) as nat);
    }
}

/// Splitting a number into low and high digits splits its reversal.
pub proof fn lemma_rev_split(lo: int, hi: int, a: nat, b: nat)
    requires
        0 <= lo < pow2(a),
        0 <= hi,
    ensures
        rev(lo + pow2(a) * hi, a + b) == rev(lo, a) * pow2(b) + rev(hi, b),
    decreases a,
{
    if a == 0 {
        lemma2_to64();
        assert(1 * hi == hi);
        assert(0 * pow2(b) == 0) by (nonlinear_arith);
    } else {
        let a1 = (a - 1) as nat;
        lemma_pow2_unfold(a);
        lemma_pow2_pos(a1);
        let x = lo + pow2(a) * hi;
        assert(pow2(a) * hi == 2 * (pow2(a1) * hi)) by (nonlinear_arith)
            requires
                pow2(a) == 2 * pow2(a1),
        ;
        assert(x % 2 == lo % 2);
        assert(x / 2 == lo / 2 + pow2(a1) * hi);
        lemma_rev_split(lo / 2, hi, a1, b);
        lemma_pow2_adds(a1, b);
        assert((a + b - 1) as nat == a1 + b);
        let r = rev(lo / 2, a1);
        let c = lo % 2;
        assert((c * pow2(a1) + r) * pow2(b) == c * pow2(a1 + b) + r * pow2(b))
            by (nonlinear_arith)
            requires
                pow2(a1) * pow2(b) == pow2(a1 + b),
        ;
    }
}

/// Reversing twice gives back the number.
pub proof fn lemma_rev_rev(x: int, n: nat)
    requires
        0 <= x < pow2(n),
    ensures
        rev(rev(x, n), n) == x,
    decreases n,
{
    lemma2_to64();
    if n > 0 {
        let n1 = (n - 1) as nat;
        lemma_pow2_unfold(n);
        lemma_rev_bound(x / 2, n1);
        lemma_rev_rev(x / 2, n1);
        // rev(x, n) == rev(x / 2, n1) + pow2(n1) * (x % 2)
        let lo = rev(x / 2, n1);
        let hi = x % 2;
        assert(rev(x, n) == lo + pow2(n1) * hi) by (nonlinear_arith)
            requires
                rev(x, n) == hi * pow2(n1) + lo,
        ;
        lemma_rev_split(lo, hi, n1, 1);
        assert(n1 + 1 == n);
        assert(rev(hi, 1) == hi) by {
            reveal_with_fuel(rev, 3);
            assert((hi % 2) * 1 == hi);
        }
        assert(rev(lo, n1) * pow2(1) == 2 * rev(lo, n1)) by (nonlinear_arith)
            requires
                pow2(1) == 2,
        ;
    }
}

/// The low `l` digits of `x` are `c` reversed exactly where the top `l` digits
/// of the reversal of `x` are `c`.
pub proof fn lemma_rev_prefix(x: int, c: int, l: nat, n: nat)
    requires
        l <= n,
        0 <= x < pow2(n),
        0 <= c < pow2(l),
    ensures
        x % (pow2(l) as int) == rev(c, l) <==> c * pow2((n - l) as nat) <= rev(x, n) < (c + 1)
            * pow2((n - l) as nat),
{
    let m = (n - l) as nat;
    lemma_pow2_pos(l);
    lemma_pow2_pos(m);
    let d = pow2(l) as int;
    let e = pow2(m) as int;
    let lo = x % d;
    let hi = x / d;
    vstd::arithmetic::div_mod::lemma_fundamental_div_mod(x, d);
    assert(x == lo + d * hi);
    assert(0 <= hi) by (nonlinear_arith)
        requires
            hi == x / d,
            x >= 0,
            d > 0,
    ;
    lemma_rev_split(lo, hi, l, m);
    assert(l + m == n);
    lemma_rev_bound(lo, l);
    lemma_rev_bound(hi, m);
    let r = rev(lo, l);
    let t = rev(hi, m);
    // rev(x, n) == r * e + t, with 0 <= t < e
    assert((c * e <= r * e + t < (c + 1) * e) <==> c == r) by (nonlinear_arith)
        requires
            0 <= t < e,
    ;
    lemma_rev_rev(lo, l);
    lemma_rev_rev(c, l);
}

/// Dropping the first `k` bits of a field divides its value; keeping them is a
/// remainder.
pub proof fn lemma_le_divmod(s: Seq<bool>, p: int, k: nat, n: nat)
    requires
        k <= n,
    ensures
        le_val(s, p, n) % (pow2(k) as int) == le_val(s, p, k),
        le_val(s, p, n) / (pow2(k) as int) == le_val(s, p + k, (n - k) as nat),
{
    let m = (n - k) as nat;
    lemma_le_split(s, p, k, m);
    lemma_le_bound(s, p, k);
    lemma_le_bound(s, p + k, m);
    lemma_pow2_pos(k);
    assert(k + m == n);
    vstd::arithmetic::mul::lemma_mul_is_commutative(pow2(k) as int, le_val(s, p + k, m));
    vstd::arithmetic::div_mod::lemma_fundamental_div_mod_converse(
        le_val(s, p, n),
        pow2(k) as int,
        le_val(s, p + k, m),
        le_val(s, p, k),
    );
}

/// A read that ends before the sequence does not see what follows it.
pub proof fn lemma_le_prefix(s: Seq<bool>, t: Seq<bool>, p: int, n: nat)
    requires
        forall|i: int| p <= i < p + n ==> #[trigger] bit(s, i) == bit(t, i),
    ensures
        le_val(s, p, n) == le_val(t, p, n),
    decreases n,
{
    if n > 0 {
        assert(bit(s, p) == bit(t, p));
        lemma_le_prefix(s, t, p + 1, (n - 1) as nat);
    }
}

pub proof fn lemma_be_prefix(s: Seq<bool>, t: Seq<bool>, p: int, n: nat)
    requires
        forall|i: int| p <= i < p + n ==> #[trigger] bit(s, i) == bit(t, i),
    ensures
        be_val(s, p, n) == be_val(t, p, n),
    decreases n,
{
    if n > 0 {
        assert(bit(s, p) == bit(t, p));
        lemma_be_prefix(s, t, p + 1, (n - 1) as nat);
    }
}

pub proof fn lemma_num_bit_step(x: int, i: nat)
    requires
        0 <= x,
        i > 0,
    ensures
        num_bit(x, i) == num_bit(x / 2, (i - 1) as nat),
{
    lemma_pow2_unfold(i);
    lemma_pow2_pos((i - 1) as nat);
    vstd::arithmetic::div_mod::lemma_div_denominator(x, 2, pow2((i - 1) as nat) as int);
}

/// The bits of a number, read back, give the number.
pub proof fn lemma_num_bits_val(s: Seq<bool>, p: int, x: int, n: nat)
    requires
        0 <= x < pow2(n),
        forall|i: int| 0 <= i < n ==> #[trigger] bit(s, p + i) == if num_bit(x, i as nat) {
            1int
        } else {
            0
        },
    ensures
        le_val(s, p, n) == x,
    decreases n,
{
    if n == 0 {
        lemma2_to64();
    } else {
        let n1 = (n - 1) as nat;
        lemma_pow2_unfold(n);
        lemma2_to64();
        assert(bit(s, p + 0) == if num_bit(x, 0) {
            1int
        } else {
            0
        });
        assert(bit(s, p) == x % 2);
        assert forall|i: int| 0 <= i < n1 implies #[trigger] bit(s, (p + 1) + i) == if num_bit(
            x / 2,
            i as nat,
        ) {
            1int
        } else {
            0
        } by {
            lemma_num_bit_step(x, (i + 1) as nat);
            assert(bit(s, p + (i + 1)) == if num_bit(x, (i + 1) as nat) {
                1int
            } else {
                0
            });
        }
        lemma_num_bits_val(s, p + 1, x / 2, n1);
    }
}

/// The eight bits of byte `i` of a byte sequence are that byte.
pub proof fn lemma_to_bits_byte(data: Seq<u8>, i: int)
    requires
        0 <= i < data.len(),
    ensures
        le_val(to_bits(data), 8 * i, 8) == data[i],
{
    let s = to_bits(data);
    lemma2_to64();
    assert forall|k: int| 0 <= k < 8 implies #[trigger] bit(s, 8 * i + k) == if num_bit(
        data[i] as int,
        k as nat,
    ) {
        1int
    } else {
        0
    } by {
        assert((8 * i + k) / 8 == i && (8 * i + k) % 8 == k);
    }
    lemma_num_bits_val(s, 8 * i, data[i] as int, 8);
}

/// Equal bits have equal values.
pub proof fn lemma_le_same(s: Seq<bool>, p: int, t: Seq<bool>, q: int, n: nat)
    requires
        forall|k: int| 0 <= k < n ==> #[trigger] bit(s, p + k) == bit(t, q + k),
    ensures
        le_val(s, p, n) == le_val(t, q, n),
    decreases n,
{
    if n > 0 {
        assert(bit(s, p + 0) == bit(t, q + 0));
        assert forall|k: int| 0 <= k < n - 1 implies #[trigger] bit(s, p + 1 + k) == bit(
            t,
            q + 1 + k,
        ) by {
            assert(bit(s, p + (k + 1)) == bit(t, q + (k + 1)));
        }
        lemma_le_same(s, p + 1, t, q + 1, (n - 1) as nat);
    }
}

} // verus!
