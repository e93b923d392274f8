//! Why merging the two least weights again and again gives the cheapest code.
//!
//! A code is a sequence of codeword lengths, one for each weight. Its cost is the sum of
//! the weights times the lengths.

use vstd::arithmetic::power2::*;
use vstd::prelude::*;

verus! {

/// The cost of codeword lengths.
pub open spec fn dot(w: Seq<int>, l: Seq<int>) -> int
    decreases w.len(),
{
    if w.len() == 0 {
        0
    } else {
        dot(w.drop_last(), l.drop_last()) + w.last() * l.last()
    }
}

/// The share of the number line of a codeword length.
pub open spec fn part(l: int) -> int {
    pow2((15 - l) as nat) as int
}

/// The share of the number line of all codewords.
pub open spec fn filled(l: Seq<int>) -> int
    decreases l.len(),
{
    if l.len() == 0 {
        0
    } else {
        filled(l.drop_last()) + part(l.last())
    }
}

/// Lengths that a prefix code can have.
pub open spec fn code(l: Seq<int>) -> bool {
    &&& forall|k: int| 0 <= k < l.len() ==> 0 <= #[trigger] l[k] <= 15
    &&& filled(l) <= 32768
}

proof fn lemma_dot_update(w: Seq<int>, l: Seq<int>, k: int, v: int)
    requires
        w.len() == l.len(),
        0 <= k < l.len(),
    ensures
        dot(w, l.update(k, v)) == dot(w, l) + w[k] * (v - l[k]),
    decreases w.len(),
{
    let n = w.len() - 1;
    let t = l.update(k, v);
    if k == n {
        assert(t.drop_last() =~= l.drop_last());
        assert(w[n] * v == w[n] * l[n] + w[n] * (v - l[n])) by (nonlinear_arith);
    } else {
        lemma_dot_update(w.drop_last(), l.drop_last(), k, v);
        assert(t.drop_last() =~= l.drop_last().update(k, v));
    }
}

proof fn lemma_filled_update(l: Seq<int>, k: int, v: int)
    requires
        0 <= k < l.len(),
    ensures
        filled(l.update(k, v)) == filled(l) + part(v) - part(l[k]),
    decreases l.len(),
{
    let n = l.len() - 1;
    let t = l.update(k, v);
    if k == n {
        assert(t.drop_last() =~= l.drop_last());
    } else {
        lemma_filled_update(l.drop_last(), k, v);
        assert(t.drop_last() =~= l.drop_last().update(k, v));
    }
}

pub proof fn lemma_dot_remove(w: Seq<int>, l: Seq<int>, k: int)
    requires
        w.len() == l.len(),
        0 <= k < l.len(),
    ensures
        dot(w.remove(k), l.remove(k)) == dot(w, l) - w[k] * l[k],
    decreases w.len(),
{
    let n = w.len() - 1;
    if k == n {
        assert(w.remove(k) =~= w.drop_last());
        assert(l.remove(k) =~= l.drop_last());
    } else {
        lemma_dot_remove(w.drop_last(), l.drop_last(), k);
        assert(w.remove(k).drop_last() =~= w.drop_last().remove(k));
        assert(l.remove(k).drop_last() =~= l.drop_last().remove(k));
        assert(w.remove(k).last() == w[n]);
        assert(l.remove(k).last() == l[n]);
    }
}

proof fn lemma_filled_remove(l: Seq<int>, k: int)
    requires
        0 <= k < l.len(),
    ensures
        filled(l.remove(k)) == filled(l) - part(l[k]),
    decreases l.len(),
{
    let n = l.len() - 1;
    if k == n {
        assert(l.remove(k) =~= l.drop_last());
    } else {
        lemma_filled_remove(l.drop_last(), k);
        assert(l.remove(k).drop_last() =~= l.drop_last().remove(k));
        assert(l.remove(k).last() == l[n]);
    }
}

proof fn lemma_filled_pos(l: Seq<int>)
    ensures
        filled(l) >= 0,
    decreases l.len(),
{
    if l.len() > 0 {
        lemma_filled_pos(l.drop_last());
    }
}

/// Codewords of at most `m` digits have shares that are multiples of the share of `m`.
proof fn lemma_filled_div(l: Seq<int>, m: int)
    requires
        m <= 15,
        forall|k: int| 0 <= k < l.len() ==> 0 <= #[trigger] l[k] <= m,
    ensures
        filled(l) % part(m) == 0,
    decreases l.len(),
{
    lemma_pow2_pos((15 - m) as nat);
    let u = part(m);
    if l.len() == 0 {
        assert(0int % u == 0);
    } else {
        let x = l.last();
        assert(0 <= l[l.len() - 1] <= m);
        lemma_filled_div(l.drop_last(), m);
        lemma_pow2_adds((m - x) as nat, (15 - m) as nat);
        let q = pow2((m - x) as nat) as int;
        let f = filled(l.drop_last());
        assert(part(x) == q * u);
        assert((f + q * u) % u == 0) by (nonlinear_arith)
            requires
                f % u == 0,
                u > 0,
        {
            vstd::arithmetic::div_mod::lemma_mod_multiples_vanish(q, f, u);
            assert(u * q + f == f + q * u) by (nonlinear_arith);
        }
    }
}

/// The place of the greatest entry but the one at `x`.
proof fn lemma_greatest_but(l: Seq<int>, x: int) -> (a: int)
    requires
        l.len() >= 1,
        x == 0 ==> l.len() >= 2,
    ensures
        0 <= a < l.len(),
        a != x,
        forall|k: int| 0 <= k < l.len() && k != x ==> #[trigger] l[k] <= l[a],
    decreases l.len(),
{
    let n = l.len() - 1;
    if n == 0 {
        0
    } else if n == 1 && x == 0 {
        1
    } else if n == 1 && x == 1 {
        0
    } else {
        let a = lemma_greatest_but(l.drop_last(), x);
        assert forall|k: int| 0 <= k < n && k != x implies #[trigger] l[k] <= l[a] by {
            assert(l.drop_last()[k] <= l.drop_last()[a]);
        }
        if n != x && l[n] > l[a] {
            n
        } else {
            a
        }
    }
}

spec fn swapped(l: Seq<int>, i: int, j: int) -> Seq<int> {
    l.update(i, l[j]).update(j, l[i])
}

/// Giving a lesser weight the longer codeword does not cost more.
proof fn lemma_swap(w: Seq<int>, l: Seq<int>, i: int, j: int)
    requires
        w.len() == l.len(),
        0 <= i < l.len(),
        0 <= j < l.len(),
        w[i] <= w[j],
        l[i] <= l[j],
    ensures
        dot(w, swapped(l, i, j)) <= dot(w, l),
        filled(swapped(l, i, j)) == filled(l),
{
    let t = l.update(i, l[j]);
    lemma_dot_update(w, l, i, l[j]);
    lemma_filled_update(l, i, l[j]);
    lemma_dot_update(w, t, j, l[i]);
    lemma_filled_update(t, j, l[i]);
    if i != j {
        let d = l[j] - l[i];
        assert(w[i] * d + w[j] * (l[i] - l[j]) <= 0) by (nonlinear_arith)
            requires
                w[i] <= w[j],
                d >= 0,
                l[i] - l[j] == -d,
        ;
    } else {
        assert(w[i] * 0 == 0);
    }
}

/// The weights with the two at `lo` and `hi` merged into one, which stands last.
pub open spec fn merged(w: Seq<int>, lo: int, hi: int) -> Seq<int> {
    w.remove(hi).remove(lo).push(w[lo] + w[hi])
}

/// If the two least weights are merged, a code for the weights gives a code for the
/// merged ones that costs less by at least the merged weight.
#[verifier::spinoff_prover]
#[verifier::rlimit(60)]
pub proof fn lemma_merge(w: Seq<int>, l: Seq<int>, lo: int, hi: int) -> (r: Seq<int>)
    requires
        w.len() == l.len(),
        0 <= lo < hi < w.len(),
        code(l),
        forall|k: int| 0 <= k < w.len() ==> 0 <= #[trigger] w[k],
        forall|k: int|
            0 <= k < w.len() && k != lo && k != hi ==> w[lo] <= #[trigger] w[k] && w[hi] <= w[k],
    ensures
        r.len() == w.len() - 1,
        code(r),
        dot(merged(w, lo, hi), r) <= dot(w, l) - (w[lo] + w[hi]),
{
    let (x, y) = if w[lo] <= w[hi] {
        (lo, hi)
    } else {
        (hi, lo)
    };
    // The least weight gets the longest codeword.
    let a = lemma_greatest_but(l, -1);
    lemma_swap(w, l, x, a);
    let l1 = swapped(l, x, a);
    assert forall|k: int| 0 <= k < l1.len() implies 0 <= #[trigger] l1[k] <= l1[x] by {}
    // The next one gets the longest of the others.
    let b = lemma_greatest_but(l1, x);
    lemma_swap(w, l1, y, b);
    let l2 = swapped(l1, y, b);
    let m = l2[x];
    let m2 = l2[y];
    assert forall|k: int| 0 <= k < l2.len() && k != x implies 0 <= #[trigger] l2[k] <= m2 by {}
    assert(0 <= m2 <= m <= 15);
    // The longest need not be longer than the next one.
    let l3 = l2.update(x, m2);
    lemma_filled_update(l2, x, m2);
    lemma_dot_update(w, l2, x, m2);
    assert(w[x] * (m2 - m) <= 0) by (nonlinear_arith)
        requires
            w[x] >= 0,
            m2 <= m,
    ;
    lemma_filled_remove(l2, x);
    let s = l2.remove(x);
    let u = part(m2);
    lemma_pow2_pos((15 - m) as nat);
    lemma_pow2_pos((15 - m2) as nat);
    assert(filled(l3) <= 32768) by {
        assert forall|k: int| 0 <= k < s.len() implies 0 <= #[trigger] s[k] <= m2 by {
            if k < x {
                assert(s[k] == l2[k]);
            } else {
                assert(s[k] == l2[k + 1]);
            }
        }
        lemma_filled_div(s, m2);
        lemma_pow2_adds(m2 as nat, (15 - m2) as nat);
        lemma2_to64();
        let f = filled(s);
        let q = pow2(m2 as nat) as int;
        assert(f + u <= 32768) by (nonlinear_arith)
            requires
                f % u == 0,
                f < 32768,
                32768 == q * u,
                u > 0,
        {
            let c = f / u;
            assert(f == u * c) by {
                vstd::arithmetic::div_mod::lemma_fundamental_div_mod(f, u);
            }
            assert(c < q) by (nonlinear_arith)
                requires
                    u * c < q * u,
                    u > 0,
            ;
            assert(u * (c + 1) <= u * q) by (nonlinear_arith)
                requires
                    c + 1 <= q,
                    u > 0,
            ;
            assert(u * (c + 1) == u * c + u) by (nonlinear_arith);
            assert(u * q == q * u) by (nonlinear_arith);
        }
    }
    // Both become one codeword that is a digit shorter.
    let t = l3.remove(hi);
    lemma_filled_remove(l3, hi);
    lemma_filled_remove(t, lo);
    lemma_filled_pos(t.remove(lo));
    assert(l3[hi] == m2 && t[lo] == m2);
    if m2 == 0 {
        lemma2_to64();
        assert(false);
    }
    let t2 = t.remove(lo);
    let r = t2.push(m2 - 1);
    assert(r.drop_last() =~= t2);
    lemma_pow2_unfold((15 - m2 + 1) as nat);
    assert(filled(r) == filled(l3));
    assert forall|k: int| 0 <= k < r.len() implies 0 <= #[trigger] r[k] <= 15 by {
        if k < t2.len() {
            if k < lo {
                assert(r[k] == l3[k]);
            } else if k + 1 < hi {
                assert(r[k] == l3[k + 1]);
            } else {
                assert(r[k] == l3[k + 2]);
            }
        }
    }
    let v = w.remove(hi);
    lemma_dot_remove(w, l3, hi);
    lemma_dot_remove(v, t, lo);
    let z = merged(w, lo, hi);
    assert(z.drop_last() =~= v.remove(lo));
    assert(v[lo] == w[lo]);
    assert((w[lo] + w[hi]) * (m2 - 1) == w[lo] * m2 + w[hi] * m2 - (w[lo] + w[hi]))
        by (nonlinear_arith);
    r
}

/// No code for a single weight costs less than nothing.
pub proof fn lemma_single(w: Seq<int>, l: Seq<int>)
    requires
        w.len() == 1,
        l.len() == 1,
        w[0] >= 0,
        code(l),
    ensures
        dot(w, l) >= 0,
{
    assert(0 <= l[0]);
    assert(dot(w.drop_last(), l.drop_last()) == 0);
    assert(w[0] * l[0] >= 0) by (nonlinear_arith)
        requires
            w[0] >= 0,
            l[0] >= 0,
    ;
}

/// How a tree was built: the weights of the inner nodes in the order in which they were
/// made, and for each of them how many leaves and how many inner nodes had been taken
/// before.
pub struct Merges {
    pub w: Seq<int>,
    pub iat: Seq<int>,
    pub bat: Seq<int>,
}

impl Merges {
    /// What had no parent before inner node `e` was made.
    pub open spec fn roots(self, f: Seq<int>, e: int) -> Seq<int> {
        f.subrange(self.iat[e], f.len() as int) + self.w.subrange(self.bat[e], e)
    }

    /// The place of the first of the two that inner node `e` takes.
    pub open spec fn lo(self, f: Seq<int>, e: int) -> int {
        if self.iat[e + 1] > self.iat[e] {
            0
        } else {
            f.len() - self.iat[e]
        }
    }

    /// The place of the second of the two that inner node `e` takes.
    pub open spec fn hi(self, f: Seq<int>, e: int) -> int {
        if self.iat[e + 1] == self.iat[e] + 2 {
            1
        } else if self.iat[e + 1] == self.iat[e] + 1 {
            f.len() - self.iat[e]
        } else {
            f.len() - self.iat[e] + 1
        }
    }

    /// Inner node `e` takes two of what had no parent, and none of these is greater than
    /// one of the others.
    pub open spec fn step_ok(self, f: Seq<int>, e: int) -> bool {
        let r = self.roots(f, e);
        let lo = self.lo(f, e);
        let hi = self.hi(f, e);
        &&& 0 <= self.iat[e] <= self.iat[e + 1] <= f.len()
        &&& 0 <= self.bat[e] <= self.bat[e + 1] <= e
        &&& self.iat[e + 1] - self.iat[e] + self.bat[e + 1] - self.bat[e] == 2
        &&& 0 <= lo < hi < r.len()
        &&& self.w[e] == r[lo] + r[hi]
        &&& forall|k: int| 0 <= k < r.len() ==> 0 <= #[trigger] r[k]
        &&& forall|k: int|
            0 <= k < r.len() && k != lo && k != hi ==> r[lo] <= #[trigger] r[k] && r[hi] <= r[k]
    }

    /// All inner nodes up to `m` have been made like that.
    pub open spec fn upto(self, f: Seq<int>, parent: Seq<u16>, m: int) -> bool {
        &&& self.w.len() == m
        &&& self.iat.len() == m + 1
        &&& self.bat.len() == m + 1
        &&& self.iat[0] == 0
        &&& self.bat[0] == 0
        &&& forall|e: int| 0 <= e < m ==> #[trigger] self.step_ok(f, e)
        &&& forall|e: int, q: int|
            0 <= e < m && #[trigger] self.bat[e] <= q < self.bat[e + 1] ==> #[trigger] parent[q] == e
    }

    /// A tree of all leaves: in the end only its root is left.
    pub open spec fn is_tree(self, f: Seq<int>, parent: Seq<u16>) -> bool {
        let n = f.len() as int;
        &&& 2 <= n
        &&& self.upto(f, parent, n - 1)
        &&& self.iat[n - 1] == n
        &&& self.bat[n - 1] == n - 2
    }
}

impl Merges {
    /// With one more inner node.
    pub open spec fn more(self, z: int, i: int, b: int) -> Merges {
        Merges { w: self.w.push(z), iat: self.iat.push(i), bat: self.bat.push(b) }
    }
}

/// One more inner node changes nothing of those before.
pub proof fn lemma_more(t: Merges, f: Seq<int>, z: int, i: int, b: int, e: int)
    requires
        0 <= e < t.w.len(),
        t.iat.len() == t.w.len() + 1,
        t.bat.len() == t.w.len() + 1,
        t.step_ok(f, e),
    ensures
        t.more(z, i, b).step_ok(f, e),
{
    let u = t.more(z, i, b);
    assert(u.w.subrange(u.bat[e], e) =~= t.w.subrange(t.bat[e], e));
}

/// The sum of the entries from `i` on.
pub open spec fn sum_from(s: Seq<int>, i: int) -> int
    decreases s.len() - i,
{
    if i >= s.len() {
        0
    } else {
        s[i] + sum_from(s, i + 1)
    }
}

/// A sum of entries that are not negative, with one more, and bounded.
pub proof fn lemma_sum_from(s: Seq<int>, z: int, i: int, most: int)
    requires
        0 <= i,
        forall|k: int| i <= k < s.len() ==> 0 <= #[trigger] s[k],
    ensures
        sum_from(s, i) >= 0,
        i <= s.len() ==> sum_from(s.push(z), i) == sum_from(s, i) + z,
        i <= s.len() && (forall|k: int| i <= k < s.len() ==> #[trigger] s[k] <= most)
            ==> sum_from(s, i) <= most * (s.len() - i),
    decreases s.len() - i,
{
    if i < s.len() {
        lemma_sum_from(s, z, i + 1, most);
        let d = s.len() - i;
        assert(most * d == most * (d - 1) + most) by (nonlinear_arith);
    } else if i == s.len() {
        assert(sum_from(s.push(z), i + 1) == 0);
        assert(most * 0 == 0);
    }
}

/// The depths of the inner nodes.
pub open spec fn depths_ok(parent: Seq<u16>, depth: Seq<u16>, n: int) -> bool {
    &&& depth.len() == n - 1
    &&& parent.len() == n - 1
    &&& depth[n - 2] == 0
    &&& forall|q: int| 0 <= q < n - 2 ==> #[trigger] depth[q] == depth[parent[q] as int] + 1
    &&& forall|q: int, r: int| 0 <= q < r <= n - 2 ==> depth[q] >= depth[r]
}

/// The depth of leaf `j`, whose parent is one of the inner nodes up to `e`.
pub open spec fn leaf_depth(t: Merges, depth: Seq<u16>, j: int, e: int) -> int
    decreases e,
{
    if e <= 0 || t.iat[e] <= j {
        depth[e] + 1
    } else {
        leaf_depth(t, depth, j, e - 1)
    }
}

/// The depths of all leaves.
pub open spec fn leaf_depths(t: Merges, depth: Seq<u16>, n: int) -> Seq<int> {
    Seq::new(n as nat, |j: int| leaf_depth(t, depth, j, n - 2))
}

/// The numbers of leaves taken grow.
pub proof fn lemma_iat_mono(t: Merges, f: Seq<int>, parent: Seq<u16>, a: int, b: int)
    requires
        t.is_tree(f, parent),
        0 <= a <= b <= f.len() - 1,
    ensures
        0 <= t.iat[a] <= t.iat[b] <= f.len(),
        0 <= t.bat[a] <= t.bat[b],
    decreases b - a,
{
    if a < b {
        lemma_iat_mono(t, f, parent, a, b - 1);
        assert(t.step_ok(f, b - 1));
    } else if a < f.len() - 1 {
        assert(t.step_ok(f, a));
    }
}

/// The depth of a leaf is that of its parent and one.
proof fn lemma_leaf_depth(
    t: Merges,
    f: Seq<int>,
    parent: Seq<u16>,
    depth: Seq<u16>,
    j: int,
    p: int,
    e: int,
)
    requires
        t.is_tree(f, parent),
        0 <= p <= e <= f.len() - 2,
        t.iat[p] <= j < t.iat[p + 1],
    ensures
        leaf_depth(t, depth, j, e) == depth[p] + 1,
    decreases e,
{
    if e > p {
        lemma_iat_mono(t, f, parent, p + 1, e);
        lemma_leaf_depth(t, f, parent, depth, j, p, e - 1);
    }
}

/// The inner node that takes a leaf.
proof fn lemma_owner(t: Merges, f: Seq<int>, parent: Seq<u16>, j: int, e: int) -> (p: int)
    requires
        t.is_tree(f, parent),
        0 <= j < t.iat[e],
        0 <= e <= f.len() - 1,
    ensures
        0 <= p < e,
        t.iat[p] <= j < t.iat[p + 1],
    decreases e,
{
    if t.iat[e - 1] <= j {
        e - 1
    } else {
        lemma_owner(t, f, parent, j, e - 1)
    }
}

/// The inner node that takes an inner node.
pub proof fn lemma_node_owner(t: Merges, f: Seq<int>, parent: Seq<u16>, j: int, e: int) -> (p: int)
    requires
        t.is_tree(f, parent),
        0 <= j < t.bat[e],
        0 <= e <= f.len() - 1,
    ensures
        0 <= p < e,
        t.bat[p] <= j < t.bat[p + 1],
        parent[j] == p,
    decreases e,
{
    if t.bat[e - 1] <= j {
        e - 1
    } else {
        lemma_node_owner(t, f, parent, j, e - 1)
    }
}

/// The depths of the inner nodes, as numbers.
spec fn node_depths(depth: Seq<u16>) -> Seq<int> {
    Seq::new(depth.len(), |k: int| depth[k] as int)
}

/// The depths of what had no parent before inner node `e` was made.
spec fn root_depths(t: Merges, depth: Seq<u16>, n: int, e: int) -> Seq<int> {
    leaf_depths(t, depth, n).subrange(t.iat[e], n) + node_depths(depth).subrange(t.bat[e], e)
}

/// Taking two from the fronts of two sequences and adding one behind them.
proof fn lemma_take_two(
    x: Seq<int>,
    y: Seq<int>,
    i: int,
    i2: int,
    b: int,
    b2: int,
    e: int,
    lo: int,
    hi: int,
)
    requires
        0 <= i <= i2 <= x.len(),
        0 <= b <= b2 <= e < y.len(),
        i2 - i + b2 - b == 2,
        lo == if i2 > i {
            0
        } else {
            x.len() - i
        },
        hi == if i2 == i + 2 {
            1
        } else if i2 == i + 1 {
            x.len() - i
        } else {
            x.len() - i + 1
        },
    ensures
        (x.subrange(i, x.len() as int) + y.subrange(b, e)).remove(hi).remove(lo).push(y[e])
            == x.subrange(i2, x.len() as int) + y.subrange(b2, e + 1),
{
    let n = x.len() as int;
    let r = x.subrange(i, n) + y.subrange(b, e);
    let m = r.remove(hi).remove(lo).push(y[e]);
    let r2 = x.subrange(i2, n) + y.subrange(b2, e + 1);
    assert(m.len() == r2.len());
    assert forall|k: int| 0 <= k < m.len() implies #[trigger] m[k] == r2[k] by {
        if i2 == i + 2 {
            if k < m.len() - 1 {
                assert(m[k] == r[k + 2]);
            }
        } else if i2 == i + 1 {
            if k < n - i2 {
                assert(m[k] == r[k + 1]);
            } else if k < m.len() - 1 {
                assert(m[k] == r[k + 2]);
            }
        } else {
            if k < n - i {
                assert(m[k] == r[k]);
            } else if k < m.len() - 1 {
                assert(m[k] == r[k + 2]);
            }
        }
    }
    assert(m =~= r2);
}

/// What has no parent after a step.
proof fn lemma_roots_merge(t: Merges, f: Seq<int>, parent: Seq<u16>, e: int)
    requires
        t.is_tree(f, parent),
        0 <= e < f.len() - 1,
    ensures
        t.roots(f, e + 1) == merged(t.roots(f, e), t.lo(f, e), t.hi(f, e)),
        t.w[e] == t.roots(f, e)[t.lo(f, e)] + t.roots(f, e)[t.hi(f, e)],
{
    assert(t.step_ok(f, e));
    lemma_iat_mono(t, f, parent, e, e + 1);
    lemma_take_two(
        f,
        t.w,
        t.iat[e],
        t.iat[e + 1],
        t.bat[e],
        t.bat[e + 1],
        e,
        t.lo(f, e),
        t.hi(f, e),
    );
}

/// The depths of both that a step takes.
proof fn lemma_taken_depth(
    t: Merges,
    f: Seq<int>,
    parent: Seq<u16>,
    depth: Seq<u16>,
    e: int,
)
    requires
        t.is_tree(f, parent),
        depths_ok(parent, depth, f.len() as int),
        0 <= e < f.len() - 1,
    ensures
        ({
            let d = root_depths(t, depth, f.len() as int, e);
            &&& d.len() == t.roots(f, e).len()
            &&& d[t.lo(f, e)] == depth[e] + 1
            &&& d[t.hi(f, e)] == depth[e] + 1
        }),
{
    let n = f.len() as int;
    let i = t.iat[e];
    let b = t.bat[e];
    assert(t.step_ok(f, e));
    lemma_iat_mono(t, f, parent, e, e + 1);
    if t.iat[e + 1] > i {
        lemma_leaf_depth(t, f, parent, depth, i, e, n - 2);
    }
    if t.iat[e + 1] == i + 2 {
        lemma_leaf_depth(t, f, parent, depth, i + 1, e, n - 2);
    }
    if t.bat[e + 1] > b {
        assert(parent[b] == e);
        assert(depth[b] == depth[parent[b] as int] + 1);
    }
    if t.bat[e + 1] == b + 2 {
        assert(parent[b + 1] == e);
        assert(depth[b + 1] == depth[parent[b + 1] as int] + 1);
    }
}

/// The depths of what has no parent after a step.
proof fn lemma_depths_merge(
    t: Merges,
    f: Seq<int>,
    parent: Seq<u16>,
    depth: Seq<u16>,
    e: int,
)
    requires
        t.is_tree(f, parent),
        depths_ok(parent, depth, f.len() as int),
        0 <= e < f.len() - 1,
    ensures
        root_depths(t, depth, f.len() as int, e + 1) == root_depths(
            t,
            depth,
            f.len() as int,
            e,
        ).remove(t.hi(f, e)).remove(t.lo(f, e)).push(depth[e] as int),
{
    assert(t.step_ok(f, e));
    lemma_iat_mono(t, f, parent, e, e + 1);
    let n = f.len() as int;
    lemma_take_two(
        leaf_depths(t, depth, n),
        node_depths(depth),
        t.iat[e],
        t.iat[e + 1],
        t.bat[e],
        t.bat[e + 1],
        e,
        t.lo(f, e),
        t.hi(f, e),
    );
}

/// The cost of depths before and after a step.
proof fn lemma_cost_step(r: Seq<int>, d: Seq<int>, lo: int, hi: int, x: int)
    requires
        r.len() == d.len(),
        0 <= lo < hi < r.len(),
        d[lo] == x + 1,
        d[hi] == x + 1,
    ensures
        dot(r, d) == dot(merged(r, lo, hi), d.remove(hi).remove(lo).push(x)) + r[lo] + r[hi],
{
    let r1 = r.remove(hi);
    let d1 = d.remove(hi);
    let m = merged(r, lo, hi);
    let d2 = d1.remove(lo).push(x);
    lemma_dot_remove(r, d, hi);
    lemma_dot_remove(r1, d1, lo);
    assert(m.drop_last() =~= r1.remove(lo));
    assert(d2.drop_last() =~= d1.remove(lo));
    assert(d1[lo] == x + 1 && r1[lo] == r[lo]);
    assert((r[lo] + r[hi]) * x == r[lo] * (x + 1) + r[hi] * (x + 1) - (r[lo] + r[hi]))
        by (nonlinear_arith);
}

/// The depths in the tree cost no more than any other code for what had no parent before
/// inner node `e` was made.
proof fn lemma_roots_best(
    t: Merges,
    f: Seq<int>,
    parent: Seq<u16>,
    depth: Seq<u16>,
    e: int,
    l: Seq<int>,
)
    requires
        t.is_tree(f, parent),
        depths_ok(parent, depth, f.len() as int),
        0 <= e <= f.len() - 1,
        code(l),
        l.len() == t.roots(f, e).len(),
        forall|k: int| 0 <= k < f.len() ==> 0 <= #[trigger] f[k],
    ensures
        dot(t.roots(f, e), root_depths(t, depth, f.len() as int, e)) <= dot(t.roots(f, e), l),
    decreases f.len() - e,
{
    let n = f.len() as int;
    let r = t.roots(f, e);
    let d = root_depths(t, depth, n, e);
    if e == n - 1 {
        assert(r =~= seq![t.w[n - 2]]);
        assert(d =~= seq![0int]);
        assert(t.step_ok(f, n - 2));
        lemma_single(r, l);
        assert(dot(r.drop_last(), d.drop_last()) == 0);
        assert(r[0] * 0 == 0);
    } else {
        assert(t.step_ok(f, e));
        let lo = t.lo(f, e);
        let hi = t.hi(f, e);
        let l2 = lemma_merge(r, l, lo, hi);
        lemma_roots_merge(t, f, parent, e);
        lemma_depths_merge(t, f, parent, depth, e);
        lemma_taken_depth(t, f, parent, depth, e);
        lemma_roots_best(t, f, parent, depth, e + 1, l2);
        lemma_cost_step(r, d, lo, hi, depth[e] as int);
    }
}

/// The depths of the leaves cost no more than any other code.
pub proof fn lemma_tree_best(
    t: Merges,
    f: Seq<int>,
    parent: Seq<u16>,
    depth: Seq<u16>,
    l: Seq<int>,
)
    requires
        t.is_tree(f, parent),
        depths_ok(parent, depth, f.len() as int),
        code(l),
        l.len() == f.len(),
        forall|k: int| 0 <= k < f.len() ==> 0 <= #[trigger] f[k],
    ensures
        dot(f, leaf_depths(t, depth, f.len() as int)) <= dot(f, l),
{
    let n = f.len() as int;
    assert(t.roots(f, 0) =~= f);
    assert(root_depths(t, depth, n, 0) =~= leaf_depths(t, depth, n));
    lemma_roots_best(t, f, parent, depth, 0, l);
}

/// How many leaves under the inner nodes from `q` on have at most the depth `d`.
pub open spec fn shallow(t: Merges, depth: Seq<u16>, n: int, q: int, d: int) -> int
    decreases n - 1 - q,
{
    if q >= n - 1 {
        0
    } else {
        shallow(t, depth, n, q + 1, d) + if depth[q] + 1 <= d {
            t.iat[q + 1] - t.iat[q]
        } else {
            0
        }
    }
}

/// From an inner node of small depth on, all leaves are shallow.
proof fn lemma_shallow_all(
    t: Merges,
    f: Seq<int>,
    parent: Seq<u16>,
    depth: Seq<u16>,
    q: int,
    d: int,
)
    requires
        t.is_tree(f, parent),
        depths_ok(parent, depth, f.len() as int),
        0 <= q <= f.len() - 1,
        q < f.len() - 1 ==> depth[q] + 1 <= d,
    ensures
        shallow(t, depth, f.len() as int, q, d) == f.len() - t.iat[q],
    decreases f.len() - q,
{
    if q < f.len() - 1 {
        if q < f.len() - 2 {
            assert(depth[q] >= depth[q + 1]);
        }
        lemma_shallow_all(t, f, parent, depth, q + 1, d);
    }
}

/// The inner nodes before `q` add leaves, or none if their depths are large.
proof fn lemma_shallow_before(
    t: Merges,
    f: Seq<int>,
    parent: Seq<u16>,
    depth: Seq<u16>,
    a: int,
    q: int,
    d: int,
)
    requires
        t.is_tree(f, parent),
        depths_ok(parent, depth, f.len() as int),
        0 <= a <= q <= f.len() - 1,
    ensures
        shallow(t, depth, f.len() as int, a, d) >= shallow(t, depth, f.len() as int, q, d),
        (q > 0 && depth[q - 1] + 1 > d) ==> shallow(t, depth, f.len() as int, a, d) == shallow(
            t,
            depth,
            f.len() as int,
            q,
            d,
        ),
        shallow(t, depth, f.len() as int, q, d) <= f.len() - t.iat[q],
    decreases f.len() - a, q - a,
{
    let n = f.len() as int;
    if a < q {
        lemma_shallow_before(t, f, parent, depth, a + 1, q, d);
        lemma_iat_mono(t, f, parent, a, a + 1);
        if a < q - 1 {
            assert(depth[a] >= depth[q - 1]);
        }
    } else if q < n - 1 {
        lemma_shallow_before(t, f, parent, depth, q + 1, q + 1, d);
        lemma_iat_mono(t, f, parent, q, q + 1);
    }
}

/// The last leaves are the shallow ones: leaf `j` has at most the depth `d` exactly if no
/// more than the shallow leaves come from it on.
pub proof fn lemma_shallow_leaf(
    t: Merges,
    f: Seq<int>,
    parent: Seq<u16>,
    depth: Seq<u16>,
    j: int,
    d: int,
)
    requires
        t.is_tree(f, parent),
        depths_ok(parent, depth, f.len() as int),
        0 <= j < f.len(),
    ensures
        leaf_depths(t, depth, f.len() as int)[j] <= d <==> j >= f.len() - shallow(
            t,
            depth,
            f.len() as int,
            0,
            d,
        ),
{
    let n = f.len() as int;
    let p = lemma_owner(t, f, parent, j, n - 1);
    lemma_leaf_depth(t, f, parent, depth, j, p, n - 2);
    if depth[p] + 1 <= d {
        lemma_shallow_all(t, f, parent, depth, p, d);
        lemma_shallow_before(t, f, parent, depth, 0, p, d);
    } else {
        lemma_shallow_before(t, f, parent, depth, 0, p + 1, d);
    }
}

} // verus!
