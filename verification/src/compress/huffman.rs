//! Length-limited canonical Huffman codes.

use crate::arith::pow2_u32;
use crate::bits;
use crate::codes;
use crate::compress::huffman_model;
use crate::compress::huffman_model::{Counts, Growth};
use crate::compress::optimality;
use crate::compress::optimality::Merges;
use crate::compress::uniqueness;
use vstd::arithmetic::power2::*;
use vstd::prelude::*;

verus! {

/// Reverse the order of the low `len` bits of a codeword.
pub fn reverse_codeword(codeword: u32, len: u8) -> (r: u32)
    requires
        len <= 16,
        codeword < pow2(len as nat),
    ensures
        r == bits::rev(codeword as int, len as nat),
        r < pow2(len as nat),
{
    let mut c: u32 = codeword;
    let mut r: u32 = 0;
    let mut i: u8 = 0;
    proof {
        lemma2_to64();
        bits::lemma_rev_bound(codeword as int, len as nat);
    }
    while i < len
        invariant
            i <= len <= 16,
            0 <= r < pow2(i as nat),
            bits::rev(codeword as int, len as nat) == r * pow2((len - i) as nat) + bits::rev(
                c as int,
                (len - i) as nat,
            ),
        decreases len - i,
    {
        let ghost m = (len - i) as nat;
        let ghost m1 = (len - i - 1) as nat;
        let ghost r0 = r as int;
        let ghost b = c as int % 2;
        proof {
            lemma_pow2_unfold(m);
            lemma_pow2_unfold((i + 1) as nat);
            lemma2_to64();
            if i < 15 {
                lemma_pow2_strictly_increases((i + 1) as nat, 16);
            }
            assert(r0 * pow2(m) + (b * pow2(m1) + bits::rev(c as int / 2, m1)) == (2 * r0 + b)
                * pow2(m1) + bits::rev(c as int / 2, m1)) by (nonlinear_arith)
                requires
                    pow2(m) == 2 * pow2(m1),
            ;
        }
        r = r * 2 + c % 2;
        c = c / 2;
        i = i + 1;
    }
    proof {
        assert(r * pow2(0) == r) by (nonlinear_arith)
            requires
                pow2(0) == 1,
        ;
    }
    r
}

/// The values are in ascending order.
pub open spec fn ascending(s: Seq<u32>) -> bool {
    forall|i: int, j: int| 0 <= i < j < s.len() ==> s[i] <= s[j]
}

/// The parent of place `c` in a heap.
spec fn up(c: int) -> int {
    (c - 1) / 2
}

/// Among the first `n` places, each place from `lo` on holds at least what its
/// children hold.
spec fn heap(s: Seq<u32>, lo: int, n: int) -> bool {
    forall|c: int| 0 < c < n && lo <= up(c) ==> s[up(c)] >= #[trigger] s[c]
}

/// Everything that bounds the first `n` values of `s` bounds those of `t`.
spec fn bounded_by(s: Seq<u32>, t: Seq<u32>, n: int) -> bool {
    forall|v: u32| all_le(s, n, v) ==> #[trigger] all_le(t, n, v)
}

spec fn all_le(s: Seq<u32>, n: int, v: u32) -> bool {
    forall|i: int| 0 <= i < n ==> #[trigger] s[i] <= v
}

proof fn lemma_update_multiset(s: Seq<u32>, i: int, x: u32)
    requires
        0 <= i < s.len(),
    ensures
        s.update(i, x).to_multiset() == s.to_multiset().remove(s[i]).insert(x),
{
    let r = s.remove(i);
    vstd::seq_lib::to_multiset_remove(s, i);
    vstd::seq_lib::to_multiset_insert(r, i, x);
    assert(s.update(i, x) =~= r.insert(i, x));
}

proof fn lemma_swap_multiset(s: Seq<u32>, i: int, j: int)
    requires
        0 <= i < s.len(),
        0 <= j < s.len(),
        i != j,
    ensures
        s.update(i, s[j]).update(j, s[i]).to_multiset() == s.to_multiset(),
{
    broadcast use vstd::seq_lib::group_to_multiset_ensures;

    let t = s.update(i, s[j]);
    lemma_update_multiset(s, i, s[j]);
    lemma_update_multiset(t, j, s[i]);
    assert(s.contains(s[i]) && s.contains(s[j]));
    assert(s.to_multiset().count(s[i]) > 0);
    assert(t.update(j, s[i]).to_multiset() =~= s.to_multiset());
}

/// Swap two values.
fn swap(a: &mut [u32], i: usize, j: usize)
    requires
        i < old(a)@.len(),
        j < old(a)@.len(),
        i != j,
    ensures
        final(a)@ == old(a)@.update(i as int, old(a)@[j as int]).update(j as int, old(a)@[i as int]),
        final(a)@.to_multiset() == old(a)@.to_multiset(),
{
    proof {
        lemma_swap_multiset(a@, i as int, j as int);
    }
    let x: u32 = a[i];
    let y: u32 = a[j];
    a[i] = y;
    a[j] = x;
}

/// Sift the value at `root` down in the heap of the first `length` values.
fn heapify_subtree(a: &mut [u32], length: usize, root: usize)
    requires
        root < length <= old(a)@.len(),
        old(a)@.len() < 0x7FFF_FFFF,
        heap(old(a)@, root + 1, length as int),
    ensures
        final(a)@.len() == old(a)@.len(),
        heap(final(a)@, root as int, length as int),
        final(a)@.to_multiset() == old(a)@.to_multiset(),
        bounded_by(old(a)@, final(a)@, length as int),
        forall|i: int| length <= i < old(a)@.len() ==> #[trigger] final(a)@[i] == old(a)@[i],
{
    let mut parent: usize = root;
    loop
        invariant
            root <= parent < length <= a@.len(),
            a@.len() == old(a)@.len(),
            a@.len() < 0x7FFF_FFFF,
            a@.to_multiset() == old(a)@.to_multiset(),
            bounded_by(old(a)@, a@, length as int),
            forall|i: int| length <= i < old(a)@.len() ==> #[trigger] a@[i] == old(a)@[i],
            forall|c: int|
                0 < c < length && root <= up(c) && up(c) != parent ==> a@[up(c)] >= #[trigger] a@[c],
            parent > root ==> root <= up(parent as int) && forall|c: int|
                0 < c < length && up(c) == parent ==> a@[up(parent as int)] >= #[trigger] a@[c],
        decreases length - parent,
    {
        let mut child: usize = parent * 2 + 1;
        if child >= length {
            return;
        }
        if child + 1 < length && a[child + 1] > a[child] {
            child = child + 1;
        }
        proof {
            assert(up(child as int) == parent);
            assert forall|c: int| 0 < c < length && up(c) == parent implies a@[child as int]
                >= #[trigger] a@[c] by {
                assert(c == 2 * parent + 1 || c == 2 * parent + 2);
            }
        }
        if a[parent] >= a[child] {
            return;
        }
        let ghost b = a@;
        swap(a, parent, child);
        proof {
            let p = parent as int;
            let k = child as int;
            assert forall|c: int| 0 < c < length && root <= up(c) && up(c) != k implies a@[up(c)]
                >= #[trigger] a@[c] by {
                if up(c) == p {
                    assert(b[k] >= b[c]);
                } else if c == p {
                    assert(b[up(p)] >= b[k]);
                } else {
                    assert(b[up(c)] >= b[c]);
                }
            }
            assert forall|c: int| 0 < c < length && up(c) == k implies a@[up(k)] >= #[trigger] a@[c] by {
                assert(b[up(c)] >= b[c]);
            }
            assert(bounded_by(old(a)@, a@, length as int)) by {
                assert forall|v: u32| all_le(old(a)@, length as int, v) implies #[trigger] all_le(
                    a@,
                    length as int,
                    v,
                ) by {
                    assert(all_le(b, length as int, v));
                }
            }
        }
        parent = child;
    }
}

/// Arrange an array as a heap.
fn heapify_array(a: &mut [u32])
    requires
        old(a)@.len() < 0x7FFF_FFFF,
    ensures
        final(a)@.len() == old(a)@.len(),
        heap(final(a)@, 0, final(a)@.len() as int),
        final(a)@.to_multiset() == old(a)@.to_multiset(),
{
    let n: usize = a.len();
    let mut i: usize = n / 2;
    while i > 0
        invariant
            n == a@.len(),
            n < 0x7FFF_FFFF,
            a@.len() == old(a)@.len(),
            i <= n / 2,
            heap(a@, i as int, n as int),
            a@.to_multiset() == old(a)@.to_multiset(),
        decreases i,
    {
        i = i - 1;
        heapify_subtree(a, n, i);
    }
}

/// The root of a heap holds its largest value.
proof fn lemma_heap_max(s: Seq<u32>, n: int, i: int)
    requires
        heap(s, 0, n),
        0 <= i < n,
    ensures
        s[0] >= s[i],
    decreases i,
{
    if i > 0 {
        lemma_heap_max(s, n, up(i));
        assert(s[up(i)] >= s[i]);
    }
}

/// Sort an array in place.
pub fn heap_sort(a: &mut [u32])
    requires
        old(a)@.len() < 0x7FFF_FFFF,
    ensures
        final(a)@.len() == old(a)@.len(),
        ascending(final(a)@),
        final(a)@.to_multiset() == old(a)@.to_multiset(),
{
    let n: usize = a.len();
    if n < 2 {
        return;
    }
    heapify_array(a);
    let mut length: usize = n;
    while length >= 2
        invariant
            1 <= length <= n,
            n == a@.len(),
            n < 0x7FFF_FFFF,
            a@.len() == old(a)@.len(),
            heap(a@, 0, length as int),
            forall|i: int, j: int| 0 <= i < j && length <= j < n ==> a@[i] <= a@[j],
            a@.to_multiset() == old(a)@.to_multiset(),
        decreases length,
    {
        let ghost b = a@;
        swap(a, 0, length - 1);
        length = length - 1;
        let ghost c = a@;
        proof {
            assert forall|i: int| 0 <= i < length implies #[trigger] c[i] <= c[length as int] by {
                lemma_heap_max(b, length + 1, i);
                lemma_heap_max(b, length + 1, length as int);
            }
            assert forall|k: int| 0 < k < length && 1 <= up(k) implies c[up(k)] >= #[trigger] c[k] by {
                assert(b[up(k)] >= b[k]);
            }
        }
        heapify_subtree(a, length, 0);
        proof {
            assert forall|i: int, j: int| 0 <= i < j && length <= j < n implies a@[i] <= a@[j] by {
                assert(a@[j] == c[j]);
                if i < length {
                    let v = c[j];
                    assert forall|k: int| 0 <= k < length implies #[trigger] c[k] <= v by {
                        assert(c[k] <= c[length as int]);
                        if j > length {
                            assert(b[k] <= b[j]);
                            assert(b[0] <= b[j]);
                            assert(b[length as int] <= b[j]);
                        }
                    }
                    assert(all_le(c, length as int, v));
                    assert(all_le(a@, length as int, v));
                } else {
                    assert(a@[i] == c[i]);
                    if i == length {
                        assert(b[0] <= b[j]);
                    }
                }
            }
        }
    }
}

/// A symbol packed with its frequency: the frequency in the high 22 bits, the
/// symbol in the low 10 bits.
pub open spec fn packed(freqs: Seq<u32>, s: int) -> int {
    freqs[s] * 1024 + s
}

/// The used symbols, packed, in ascending order.
pub open spec fn sorted_symbols(freqs: Seq<u32>, v: Seq<u32>) -> bool {
    &&& ascending(v)
    &&& v.no_duplicates()
    &&& v.len() <= freqs.len()
    &&& forall|k: int|
        0 <= k < v.len() ==> {
            let s = #[trigger] v[k] as int % 1024;
            0 <= s < freqs.len() && freqs[s] > 0 && v[k] == packed(freqs, s)
        }
    &&& forall|s: int|
        0 <= s < freqs.len() && #[trigger] freqs[s] > 0 ==> exists|k: int|
            0 <= k < v.len() && v[k] as int % 1024 == s
}

/// Sort symbols by frequency, discarding those that do not occur.
fn sort_symbols(freqs: &[u32]) -> (v: Vec<u32>)
    requires
        freqs@.len() <= 1024,
        forall|s: int| 0 <= s < freqs@.len() ==> #[trigger] freqs@[s] < 0x40_0000,
    ensures
        sorted_symbols(freqs@, v@),
{
    let n: usize = freqs.len();
    let mut v: Vec<u32> = Vec::new();
    let mut sym: usize = 0;
    while sym < n
        invariant
            sym <= n == freqs@.len(),
            n <= 1024,
            v@.len() <= sym,
            forall|s: int| 0 <= s < n ==> #[trigger] freqs@[s] < 0x40_0000,
            forall|k: int|
                0 <= k < v@.len() ==> {
                    let s = #[trigger] v@[k] as int % 1024;
                    0 <= s < sym && freqs@[s] > 0 && v@[k] == packed(freqs@, s)
                },
            forall|s: int|
                0 <= s < sym && #[trigger] freqs@[s] > 0 ==> exists|k: int|
                    0 <= k < v@.len() && v@[k] as int % 1024 == s,
            v@.no_duplicates(),
        decreases n - sym,
    {
        let f: u32 = freqs[sym];
        let ghost v0 = v@;
        if f != 0 {
            let p: u32 = f * 1024 + sym as u32;
            proof {
                assert(p as int % 1024 == sym);
            }
            v.push(p);
            proof {
                assert forall|s: int| 0 <= s < sym + 1 && #[trigger] freqs@[s] > 0 implies exists|k: int|
                    0 <= k < v@.len() && v@[k] as int % 1024 == s by {
                    if s < sym {
                        let k = choose|k: int| 0 <= k < v0.len() && v0[k] as int % 1024 == s;
                        assert(v@[k] == v0[k]);
                    } else {
                        assert(v@[v0.len() as int] as int % 1024 == s);
                    }
                }
                assert forall|i: int, j: int| 0 <= i < v@.len() && 0 <= j < v@.len() && i != j implies v@[i]
                    != v@[j] by {
                    if i < v0.len() {
                        assert(v0[i] as int % 1024 < sym);
                    }
                    if j < v0.len() {
                        assert(v0[j] as int % 1024 < sym);
                    }
                }
            }
        }
        sym = sym + 1;
    }
    let ghost u = v@;
    heap_sort(v.as_mut_slice());
    proof {
        broadcast use vstd::seq_lib::group_to_multiset_ensures;

        u.lemma_multiset_has_no_duplicates();
        assert(forall|x: u32| #[trigger] v@.to_multiset().contains(x) ==> u.to_multiset().contains(x));
        v@.lemma_multiset_has_no_duplicates_conv();
        assert forall|k: int| 0 <= k < v@.len() implies {
            let s = #[trigger] v@[k] as int % 1024;
            0 <= s < freqs@.len() && freqs@[s] > 0 && v@[k] == packed(freqs@, s)
        } by {
            assert(v@.contains(v@[k]));
            assert(v@.to_multiset().count(v@[k]) > 0);
            assert(u.contains(v@[k]));
            let j = choose|j: int| 0 <= j < u.len() && u[j] == v@[k];
            assert(u[j] as int % 1024 >= 0);
        }
        assert forall|s: int| 0 <= s < freqs@.len() && #[trigger] freqs@[s] > 0 implies exists|k: int|
            0 <= k < v@.len() && v@[k] as int % 1024 == s by {
            let j = choose|j: int| 0 <= j < u.len() && u[j] as int % 1024 == s;
            assert(u.contains(u[j]));
            assert(u.to_multiset().count(u[j]) > 0);
            assert(v@.contains(u[j]));
            let k = choose|k: int| 0 <= k < v@.len() && v@[k] == u[j];
            assert(v@[k] as int % 1024 == s);
        }
    }
    v
}

/// The shape of a Huffman tree of `n` leaves, given by the parents of its
/// `n - 1` inner nodes: parents come after their children, in the order of
/// the children, and no node has more than two children. The root comes last.
spec fn tree_ok(parent: Seq<u16>, n: int) -> bool {
    &&& parent.len() == n - 1
    &&& forall|j: int| 0 <= j < n - 2 ==> j < #[trigger] parent[j] <= n - 2
    &&& forall|i: int, j: int| 0 <= i < j < n - 2 ==> parent[i] <= parent[j]
    &&& forall|i: int, j: int| 0 <= i && i + 2 <= j < n - 2 ==> parent[i] < parent[j]
}

/// The frequencies of sorted, packed symbols.
pub open spec fn weights(sorted: Seq<u32>) -> Seq<int> {
    Seq::new(sorted.len(), |j: int| sorted[j] as int / 1024)
}

/// The next two of leaves and inner nodes in order are the least of what has no parent.
proof fn lemma_least_two(t: Merges, f: Seq<int>, z: int, i: int, b: int, i2: int, b2: int, e: int)
    requires
        t.w.len() == e,
        t.iat.len() == e + 1,
        t.bat.len() == e + 1,
        t.iat[e] == i,
        t.bat[e] == b,
        0 <= i <= i2 <= f.len(),
        0 <= b <= b2 <= e,
        i2 - i + b2 - b == 2,
        forall|j: int, k: int| i <= j < k < f.len() ==> f[j] <= f[k],
        forall|j: int, k: int| b <= j < k < e ==> t.w[j] <= t.w[k],
        forall|k: int| i <= k < f.len() ==> 0 <= #[trigger] f[k],
        forall|k: int| b <= k < e ==> 0 <= #[trigger] t.w[k],
        i2 == i + 2 ==> z == f[i] + f[i + 1] && (b < e ==> f[i + 1] <= t.w[b]),
        i2 == i ==> z == t.w[b] + t.w[b + 1] && (i < f.len() ==> t.w[b + 1] <= f[i]),
        i2 == i + 1 ==> z == f[i] + t.w[b] && (i2 < f.len() ==> t.w[b] <= f[i + 1]) && (b2 < e
            ==> f[i] <= t.w[b + 1]),
    ensures
        t.more(z, i2, b2).step_ok(f, e),
{
    let u = t.more(z, i2, b2);
    let n = f.len() as int;
    let r = u.roots(f, e);
    let lo = u.lo(f, e);
    let hi = u.hi(f, e);
    assert(u.iat[e] == i && u.iat[e + 1] == i2 && u.bat[e] == b && u.bat[e + 1] == b2);
    assert(r.len() == n - i + e - b);
    assert forall|k: int| 0 <= k < r.len() implies #[trigger] r[k] == if k < n - i {
        f[i + k]
    } else {
        t.w[b + k - (n - i)]
    } by {}
    assert forall|k: int| 0 <= k < r.len() && k != lo && k != hi implies r[lo] <= #[trigger] r[k]
        && r[hi] <= r[k] by {
        if k < n - i {
            assert(r[k] == f[i + k]);
            assert(f[i] <= f[i + k]);
        } else {
            let q = b + k - (n - i);
            assert(r[k] == t.w[q]);
            assert(t.w[b] <= t.w[q]);
        }
    }
}

/// Build the Huffman tree of sorted, packed symbols. Returns the parent of each
/// inner node; the root is the last one.
#[verifier::spinoff_prover]
#[verifier::rlimit(60)]
fn build_tree(sorted: &Vec<u32>) -> (r: (Vec<u16>, Ghost<Merges>))
    requires
        2 <= sorted@.len() <= 1024,
        ascending(sorted@),
    ensures
        tree_ok(r.0@, sorted@.len() as int),
        r.1@.is_tree(weights(sorted@), r.0@),
        r.0@ == huffman_model::grown(weights(sorted@), (sorted@.len() - 1) as nat).parent,
{
    let n: usize = sorted.len();
    let last: usize = n - 1;
    let mut i: usize = 0;
    let mut b: usize = 0;
    let mut e: usize = 0;
    let mut freq: Vec<u64> = Vec::new();
    let mut parent: Vec<u16> = Vec::new();
    let ghost f = weights(sorted@);
    let ghost mut t = Merges { w: Seq::empty(), iat: seq![0int], bat: seq![0int] };
    let ghost mut top: int = 0;
    let ghost total = optimality::sum_from(f, 0);
    proof {
        optimality::lemma_sum_from(f, 0, 0, 0x40_0000);
        assert forall|j: int, k: int| 0 <= j < k < n implies f[j] <= f[k] by {
            assert(sorted@[j] <= sorted@[k]);
        }
    }
    while e < last
        invariant
            n == sorted@.len(),
            2 <= n <= 1024,
            last == n - 1,
            f == weights(sorted@),
            forall|j: int, k: int| 0 <= j < k < n ==> f[j] <= f[k],
            e <= last,
            i <= n,
            b <= e,
            e > 0 ==> b < e,
            i + b == 2 * e,
            freq@.len() == e,
            parent@.len() == e,
            forall|j: int| 0 <= j < b ==> j < #[trigger] parent@[j] < e,
            forall|j: int, k: int| 0 <= j < k < b ==> parent@[j] <= parent@[k],
            forall|j: int, k: int| 0 <= j && j + 2 <= k < b ==> parent@[j] < parent@[k],
            t.upto(f, parent@, e as int),
            t.iat[e as int] == i,
            t.bat[e as int] == b,
            forall|k: int| 0 <= k <= e ==> #[trigger] t.bat[k] <= b,
            forall|k: int| 0 <= k < e ==> #[trigger] freq@[k] == t.w[k],
            forall|j: int, k: int| b <= j < k < e ==> t.w[j] <= t.w[k],
            0 <= top,
            forall|k: int| i <= k < n ==> #[trigger] f[k] >= top,
            forall|k: int| b <= k < e ==> #[trigger] t.w[k] >= top,
            e > 0 ==> t.w[e - 1] <= 2 * top,
            optimality::sum_from(f, i as int) + optimality::sum_from(t.w, b as int) == total,
            total <= 0x1_0000_0000,
            huffman_model::grown(f, e as nat) == (Growth {
                weight: t.w,
                parent: parent@,
                leaves: i as int,
                inner: b as int,
            }),
        decreases last - e,
    {
        let ghost i0 = i as int;
        let ghost b0 = b as int;
        let ghost p0 = parent@;
        proof {
            optimality::lemma_sum_from(f, 0, i0, 0);
            optimality::lemma_sum_from(t.w, 0, b0, 0);
            optimality::lemma_sum_from(f, 0, i0 + 1, 0);
            optimality::lemma_sum_from(t.w, 0, b0 + 1, 0);
            optimality::lemma_sum_from(f, 0, i0 + 2, 0);
            optimality::lemma_sum_from(t.w, 0, b0 + 2, 0);
            reveal_with_fuel(optimality::sum_from, 3);
            if i < n {
                assert(f[i0] == sorted@[i0] as int / 1024);
            }
            if i + 1 < n {
                assert(f[i0 + 1] == sorted@[i0 + 1] as int / 1024);
                assert(f[i0] <= f[i0 + 1]);
            }
            if b < e {
                assert(freq@[b0] == t.w[b0]);
            }
            if b + 1 < e {
                assert(freq@[b0 + 1] == t.w[b0 + 1]);
                assert(t.w[b0] <= t.w[b0 + 1]);
            }
        }
        let new_freq: u64;
        if i < last && (b == e || (sorted[i + 1] / 1024) as u64 <= freq[b]) {
            // Two leaves.
            new_freq = (sorted[i] / 1024) as u64 + (sorted[i + 1] / 1024) as u64;
            i = i + 2;
        } else if b + 2 <= e && (i > last || freq[b + 1] < (sorted[i] / 1024) as u64) {
            // Two inner nodes.
            new_freq = freq[b] + freq[b + 1];
            parent.set(b, e as u16);
            parent.set(b + 1, e as u16);
            b = b + 2;
        } else {
            // A leaf and an inner node.
            new_freq = (sorted[i] / 1024) as u64 + freq[b];
            parent.set(b, e as u16);
            i = i + 1;
            b = b + 1;
        }
        let ghost p1 = parent@;
        freq.push(new_freq);
        parent.push(0);
        proof {
            let z = new_freq as int;
            let u = t.more(z, i as int, b as int);
            lemma_least_two(t, f, z, i0, b0, i as int, b as int, e as int);
            assert forall|k: int| 0 <= k < e + 1 implies #[trigger] u.step_ok(f, k) by {
                if k < e {
                    assert(t.step_ok(f, k));
                    optimality::lemma_more(t, f, z, i as int, b as int, k);
                }
            }
            assert forall|k: int, q: int|
                0 <= k < e + 1 && #[trigger] u.bat[k] <= q < u.bat[k + 1] implies #[trigger] parent@[q]
                == k by {
                if k < e {
                    assert(t.bat[k] <= q < t.bat[k + 1]);
                    assert(t.bat[k + 1] <= b0);
                    assert(t.step_ok(f, k));
                    assert(p0[q] == k);
                    assert(parent@[q] == p0[q]);
                } else {
                    assert(b0 <= q < b);
                    assert(parent@[q] == p1[q]);
                }
            }
            optimality::lemma_sum_from(t.w, z, b as int, 0);
            top = if i == i0 + 2 {
                f[i0 + 1]
            } else if i == i0 {
                t.w[b0 + 1]
            } else if f[i0] <= t.w[b0] {
                t.w[b0]
            } else {
                f[i0]
            };
            assert forall|k: int| i <= k < n implies #[trigger] f[k] >= top by {
                if i == i0 + 2 {
                    assert(f[i0 + 1] <= f[k]);
                } else if i == i0 + 1 {
                    assert(f[i0] <= f[k]);
                    assert(f[i0 + 1] <= f[k] || k == i0 + 1);
                } else {
                    assert(f[i0] <= f[k] || k == i0);
                }
            }
            assert forall|k: int| b <= k < e implies #[trigger] t.w[k] >= top by {
                if i == i0 + 2 {
                    assert(t.w[b0] <= t.w[k] || k == b0);
                } else {
                    assert(t.w[b0 + 1] <= t.w[k] || k == b0 + 1);
                    assert(t.w[b0] <= t.w[k]);
                }
            }
            assert(huffman_model::grown(f, (e + 1) as nat) == huffman_model::grow(
                f,
                huffman_model::grown(f, e as nat),
            ));
            assert(huffman_model::grow(f, huffman_model::grown(f, e as nat)) =~= (Growth {
                weight: u.w,
                parent: parent@,
                leaves: i as int,
                inner: b as int,
            })) by {
                reveal(huffman_model::grow);
            }
            t = u;
        }
        e = e + 1;
    }
    (parent, Ghost(t))
}

/// The number of codewords of the lengths 1 to `k`.
pub open spec fn leaves(c: Seq<u32>, k: nat) -> int
    decreases k,
{
    if k == 0 {
        0
    } else {
        leaves(c, (k - 1) as nat) + c[k as int]
    }
}

/// The share of the number line of the codewords of the lengths 1 to `k`.
spec fn share(c: Seq<u32>, k: nat) -> int
    decreases k,
{
    if k == 0 {
        0
    } else {
        share(c, (k - 1) as nat) + c[k as int] * codes::weight(k as int)
    }
}

proof fn lemma_leaves_update(c: Seq<u32>, d: int, x: u32, k: nat)
    requires
        1 <= d < c.len(),
        k < c.len(),
    ensures
        leaves(c.update(d, x), k) == leaves(c, k) + if d <= k {
            x - c[d]
        } else {
            0
        },
        share(c.update(d, x), k) == share(c, k) + if d <= k {
            (x - c[d]) * codes::weight(d)
        } else {
            0
        },
    decreases k,
{
    if k > 0 {
        lemma_leaves_update(c, d, x, (k - 1) as nat);
        if d == k {
            assert(x * codes::weight(d) == c[d] * codes::weight(d) + (x - c[d]) * codes::weight(d))
                by (nonlinear_arith);
        }
    }
}

/// How many codewords of each length there are: `n` in all, none longer than
/// `max`, and together they fill the number line.
spec fn counts_ok(c: Seq<u32>, n: int, max: int) -> bool {
    &&& c.len() == 16
    &&& c[0] == 0
    &&& forall|d: int| max < d < 16 ==> #[trigger] c[d] == 0
    &&& leaves(c, 15) == n
    &&& share(c, 15) == 32768
}

proof fn lemma_only_max(c: Seq<u32>, max: int, k: nat)
    requires
        c.len() == 16,
        1 <= max <= 15,
        k <= 15,
        forall|d: int| 1 <= d < 16 && d != max ==> #[trigger] c[d] == 0,
    ensures
        leaves(c, k) == if k >= max {
            c[max] as int
        } else {
            0
        },
        share(c, k) == if k >= max {
            c[max] * codes::weight(max)
        } else {
            0
        },
    decreases k,
{
    if k > 0 {
        lemma_only_max(c, max, (k - 1) as nat);
        if k != max {
            assert(c[k as int] == 0);
            assert(0 * codes::weight(k as int) == 0);
        }
    }
}

/// With fewer than 2^max codewords that fill the number line, not all of them
/// have the length `max`.
proof fn lemma_some_shorter(c: Seq<u32>, max: int)
    requires
        c.len() == 16,
        1 <= max <= 15,
        forall|d: int| max < d < 16 ==> #[trigger] c[d] == 0,
        leaves(c, 15) < pow2(max as nat),
        share(c, 15) == 32768,
    ensures
        exists|d: int| 1 <= d < max && #[trigger] c[d] != 0,
{
    if forall|d: int| 1 <= d < max ==> #[trigger] c[d] == 0 {
        lemma_only_max(c, max, 15);
        codes::lemma_weight_pos(max);
        let w = codes::weight(max);
        let m = pow2(max as nat) as int;
        assert(c[max] * w < m * w) by (nonlinear_arith)
            requires
                c[max] < m,
                w > 0,
        ;
        vstd::arithmetic::mul::lemma_mul_is_commutative(m, w);
    }
}

/// How many of the nodes `lo` to `hi` are children of node `q`.
spec fn kids(parent: Seq<u16>, lo: int, hi: int, q: int) -> int
    decreases hi - lo,
{
    if lo >= hi {
        0
    } else {
        kids(parent, lo + 1, hi, q) + if parent[lo] == q {
            1int
        } else {
            0
        }
    }
}

/// Nodes whose parents come after `q` are not its children.
proof fn lemma_no_kids(parent: Seq<u16>, lo: int, hi: int, q: int)
    requires
        0 <= lo,
        hi <= parent.len(),
        forall|j: int| lo <= j < hi ==> parent[j] > q,
    ensures
        kids(parent, lo, hi, q) == 0,
    decreases hi - lo,
{
    if lo < hi {
        lemma_no_kids(parent, lo + 1, hi, q);
        assert(parent[lo] > q);
    }
}

/// No node has more than two children.
proof fn lemma_two_kids(parent: Seq<u16>, n: int, lo: int, q: int)
    requires
        tree_ok(parent, n),
        0 <= lo,
    ensures
        0 <= kids(parent, lo, n - 2, q) <= 2,
        lo < n - 2 && parent[lo] == q ==> kids(parent, lo + 1, n - 2, q) <= 1,
    decreases n - 2 - lo,
{
    if lo < n - 2 {
        lemma_two_kids(parent, n, lo + 1, q);
        if parent[lo] == q {
            assert forall|j: int| lo + 2 <= j < n - 2 implies parent[j] > q by {
                assert(parent[lo] < parent[j]);
            }
            lemma_no_kids(parent, lo + 2, n - 2, q);
            if lo + 1 < n - 2 {
                assert(kids(parent, lo + 1, n - 2, q) <= 1);
            }
        }
    }
}

/// The free places at depth `d` under the nodes `q` to `root`, the children of
/// which are counted from node `lo` on.
spec fn free(parent: Seq<u16>, depth: Seq<u16>, lo: int, q: int, root: int, d: int) -> int
    decreases root + 1 - q,
{
    if q > root {
        0
    } else {
        free(parent, depth, lo, q + 1, root, d) + if depth[q] + 1 == d {
            2 - kids(parent, lo, root, q)
        } else {
            0
        }
    }
}

/// Free places are not negative, and there is one at the place of a new child.
proof fn lemma_free_pos(parent: Seq<u16>, depth: Seq<u16>, n: int, lo: int, q: int, d: int, p: int)
    requires
        tree_ok(parent, n),
        0 <= lo,
        0 <= q,
    ensures
        free(parent, depth, lo, q, n - 2, d) >= 0,
        q <= p <= n - 2 && depth[p] + 1 == d ==> free(parent, depth, lo, q, n - 2, d) >= 2 - kids(
            parent,
            lo,
            n - 2,
            p,
        ),
    decreases n - 1 - q,
{
    if q <= n - 2 {
        lemma_free_pos(parent, depth, n, lo, q + 1, d, p);
        lemma_two_kids(parent, n, lo, q);
    }
}

/// A new node takes one place under its parent.
proof fn lemma_free_take(
    parent: Seq<u16>,
    depth: Seq<u16>,
    n: int,
    node: int,
    q: int,
    d: int,
)
    requires
        tree_ok(parent, n),
        0 <= node < n - 2,
        0 <= q,
    ensures
        free(parent, depth, node, q, n - 2, d) == free(parent, depth, node + 1, q, n - 2, d) - if q
            <= parent[node] && depth[parent[node] as int] + 1 == d {
            1int
        } else {
            0
        },
    decreases n - 1 - q,
{
    if q <= n - 2 {
        lemma_free_take(parent, depth, n, node, q + 1, d);
        assert(parent[node] <= n - 2);
    }
}

/// The depths of nodes outside the range do not matter.
proof fn lemma_free_depth(
    parent: Seq<u16>,
    depth: Seq<u16>,
    depth2: Seq<u16>,
    lo: int,
    q: int,
    root: int,
    d: int,
)
    requires
        forall|j: int| q <= j <= root ==> depth[j] == depth2[j],
    ensures
        free(parent, depth, lo, q, root, d) == free(parent, depth2, lo, q, root, d),
    decreases root + 1 - q,
{
    if q <= root {
        lemma_free_depth(parent, depth, depth2, lo, q + 1, root, d);
        assert(depth[q] == depth2[q]);
    }
}

/// Compute the number of codewords for each length from the depths in the tree,
/// none longer than `max_codeword_len`.
#[verifier::spinoff_prover]
#[verifier::rlimit(40)]
fn compute_length_counts(parent: &Vec<u16>, max_codeword_len: u32) -> (r: (
    [u32; 16],
    Ghost<Seq<u16>>,
))
    requires
        parent@.len() >= 1,
        parent@.len() < 1024,
        tree_ok(parent@, parent@.len() as int + 1),
        1 <= max_codeword_len <= 15,
        parent@.len() + 1 <= pow2(max_codeword_len as nat),
    ensures
        counts_ok(r.0@, parent@.len() as int + 1, max_codeword_len as int),
        optimality::depths_ok(parent@, r.1@, parent@.len() as int + 1),
        r.1@[0] < max_codeword_len ==> forall|d: int|
            1 <= d <= max_codeword_len ==> #[trigger] r.0@[d] == free(
                parent@,
                r.1@,
                0,
                0,
                parent@.len() - 1,
                d,
            ),
        r.1@[0] >= max_codeword_len ==> r.0@[max_codeword_len as int] >= 1,
        r.0@ == huffman_model::counted(
            parent@,
            max_codeword_len as int,
            (parent@.len() - 1) as nat,
        ).c,
        r.1@ == huffman_model::counted(
            parent@,
            max_codeword_len as int,
            (parent@.len() - 1) as nat,
        ).depth,
{
    let max: usize = max_codeword_len as usize;
    let root: usize = parent.len() - 1;
    let ghost n = parent@.len() as int + 1;
    let mut c: [u32; 16] = [0u32; 16];
    c[1] = 2;
    let mut depth: Vec<u16> = Vec::new();
    let mut k: usize = 0;
    while k <= root
        invariant
            k <= root + 1,
            root < 1024,
            depth@.len() == k,
            forall|j: int| 0 <= j < k ==> depth@[j] == 0,
        decreases root + 1 - k,
    {
        depth.push(0);
        k = k + 1;
    }
    let mut node: usize = root;
    proof {
        let z = Seq::new(16, |i: int| 0u32);
        lemma2_to64();
        lemma_zero_counts(z, 15);
        lemma_leaves_update(z, 1, 2, 15);
        assert((2 - z[1]) * codes::weight(1) == 32768) by (nonlinear_arith)
            requires
                z[1] == 0,
                codes::weight(1) == 16384,
        ;
        assert(c@ =~= z.update(1, 2));
        assert(huffman_model::counted(parent@, max as int, 0) =~= (Counts {
            c: c@,
            depth: depth@,
        }));
        assert forall|d: int| 1 <= d <= max implies #[trigger] c@[d] == free(
            parent@,
            depth@,
            node as int,
            node as int,
            root as int,
            d,
        ) by {
            assert(kids(parent@, root as int, root as int, root as int) == 0);
            reveal_with_fuel(free, 3);
        }
    }
    while node > 0
        invariant
            node <= root,
            n == parent@.len() + 1,
            root == n - 2,
            n <= 1024,
            tree_ok(parent@, n),
            1 <= max <= 15,
            n <= pow2(max as nat),
            depth@.len() == n - 1,
            depth@[root as int] == 0,
            forall|q: int| node <= q < root ==> #[trigger] depth@[q] == depth@[parent@[q] as int] + 1,
            forall|q: int, r: int| node <= q < r <= root ==> depth@[q] >= depth@[r],
            forall|q: int| node <= q <= root ==> #[trigger] depth@[q] <= root - q,
            c@[0] == 0,
            forall|d: int| max < d < 16 ==> #[trigger] c@[d] == 0,
            leaves(c@, 15) == root - node + 2,
            share(c@, 15) == 32768,
            depth@[node as int] < max ==> forall|d: int|
                1 <= d <= max ==> #[trigger] c@[d] == free(
                    parent@,
                    depth@,
                    node as int,
                    node as int,
                    root as int,
                    d,
                ),
            depth@[node as int] >= max ==> c@[max as int] >= 1,
            forall|d: int| 0 <= d < 16 ==> #[trigger] c@[d] <= leaves(c@, 15),
            huffman_model::counted(parent@, max as int, (root - node) as nat) == (Counts {
                c: c@,
                depth: depth@,
            }),
        decreases node,
    {
        let ghost prev = depth@;
        let ghost c0 = c@;
        node = node - 1;
        let p: usize = parent[node] as usize;
        let full: u16 = depth[p] + 1;
        depth.set(node, full);
        let mut d: usize = full as usize;
        proof {
            assert(node < p <= root);
            assert(prev[p as int] <= prev[node + 1]);
            if node + 1 < root {
                assert(parent@[node as int] <= parent@[node + 1]);
                let p1 = parent@[node + 1] as int;
                assert(prev[node + 1] == prev[p1] + 1);
                if (p as int) < p1 {
                    assert(prev[p as int] >= prev[p1]);
                }
            }
            assert(full >= prev[node + 1]);
            if full < max {
                lemma_two_kids(parent@, n, node as int, p as int);
                lemma_free_pos(parent@, prev, n, node + 1, node + 1, full as int, p as int);
                assert(c0[full as int] == free(
                    parent@,
                    prev,
                    node + 1,
                    node + 1,
                    root as int,
                    full as int,
                ));
            }
            if full == max && prev[node + 1] < max {
                lemma_two_kids(parent@, n, node as int, p as int);
                lemma_free_pos(parent@, prev, n, node + 1, node + 1, full as int, p as int);
                assert(c0[full as int] == free(
                    parent@,
                    prev,
                    node + 1,
                    node + 1,
                    root as int,
                    full as int,
                ));
            }
            assert(full <= prev[node + 1] + 1);
        }
        if d >= max {
            d = max;
            proof {
                lemma_some_shorter(c@, max as int);
            }
            let ghost w = choose|w: int| 1 <= w < max && #[trigger] c@[w] != 0;
            d = d - 1;
            while c[d] == 0
                invariant
                    1 <= w <= d < max <= 15,
                    c@[w] != 0,
                    huffman_model::length_below(c@, max - 1) == huffman_model::length_below(
                        c@,
                        d as int,
                    ),
                decreases d,
            {
                d = d - 1;
            }
        }
        proof {
            let x = (c0[d as int] - 1) as u32;
            let c1 = c0.update(d as int, x);
            let y = (c1[d + 1] + 2) as u32;
            lemma_leaves_update(c0, d as int, x, 15);
            lemma_leaves_update(c1, d + 1, y, 15);
            codes::lemma_weight_pos(d as int);
            lemma_pow2_unfold((15 - d) as nat);
            assert((x - c0[d as int]) * codes::weight(d as int) + (y - c1[d + 1]) * codes::weight(
                d + 1,
            ) == 0) by (nonlinear_arith)
                requires
                    x - c0[d as int] == -1,
                    y - c1[d + 1] == 2,
                    codes::weight(d as int) == 2 * codes::weight(d + 1),
            ;
        }
        c[d] = c[d] - 1;
        c[d + 1] = c[d + 1] + 2;
        proof {
            let k = (root - node) as nat;
            assert(huffman_model::split_leaf(
                parent@,
                max as int,
                Counts { c: c0, depth: prev },
                node as int,
            ) =~= (Counts { c: c@, depth: depth@ })) by {
                reveal(huffman_model::split_leaf);
            }
            assert(huffman_model::counted(parent@, max as int, k) == huffman_model::split_leaf(
                parent@,
                max as int,
                huffman_model::counted(parent@, max as int, (k - 1) as nat),
                parent@.len() - 1 - k,
            ));
            lemma_each_count(c@, 15);
            if full < max {
                assert forall|e: int| 1 <= e <= max implies #[trigger] c@[e] == free(
                    parent@,
                    depth@,
                    node as int,
                    node as int,
                    root as int,
                    e,
                ) by {
                    assert(c0[e] == free(parent@, prev, node + 1, node + 1, root as int, e));
                    lemma_free_take(parent@, prev, n, node as int, node + 1, e);
                    lemma_free_depth(
                        parent@,
                        prev,
                        depth@,
                        node as int,
                        node + 1,
                        root as int,
                        e,
                    );
                    assert forall|j: int| node <= j < root implies parent@[j] > node by {
                        assert(j < parent@[j]);
                    }
                    lemma_no_kids(parent@, node as int, root as int, node as int);
                }
            }
        }
    }
    (c, Ghost(depth@))
}

/// The children of an inner node that are inner nodes are those that it took.
proof fn lemma_kids_taken(t: Merges, f: Seq<int>, parent: Seq<u16>, lo: int, q: int)
    requires
        t.is_tree(f, parent),
        0 <= lo <= f.len() - 2,
        0 <= q <= f.len() - 2,
    ensures
        kids(parent, lo, f.len() - 2, q) == if t.bat[q + 1] <= lo {
            0
        } else if t.bat[q] <= lo {
            t.bat[q + 1] - lo
        } else {
            t.bat[q + 1] - t.bat[q]
        },
    decreases f.len() - lo,
{
    let n = f.len() as int;
    assert(t.step_ok(f, q));
    optimality::lemma_iat_mono(t, f, parent, q + 1, n - 1);
    if lo < n - 2 {
        lemma_kids_taken(t, f, parent, lo + 1, q);
        let p = optimality::lemma_node_owner(t, f, parent, lo, n - 1);
        if p < q {
            optimality::lemma_iat_mono(t, f, parent, p + 1, q);
        } else if p > q {
            optimality::lemma_iat_mono(t, f, parent, q + 1, p);
        }
    }
}

/// The places at depth `d` that are free in the end are those of the leaves there.
proof fn lemma_free_leaves(
    t: Merges,
    f: Seq<int>,
    parent: Seq<u16>,
    depth: Seq<u16>,
    q: int,
    d: int,
)
    requires
        t.is_tree(f, parent),
        0 <= q <= f.len() - 1,
    ensures
        optimality::shallow(t, depth, f.len() as int, q, d) == optimality::shallow(
            t,
            depth,
            f.len() as int,
            q,
            d - 1,
        ) + free(parent, depth, 0, q, f.len() - 2, d),
        d <= 0 ==> optimality::shallow(t, depth, f.len() as int, q, d) == 0,
    decreases f.len() - q,
{
    if q < f.len() - 1 {
        lemma_free_leaves(t, f, parent, depth, q + 1, d);
        lemma_kids_taken(t, f, parent, 0, q);
        assert(t.step_ok(f, q));
    }
}

/// The numbers of codewords are those of the leaves.
proof fn lemma_counts_shallow(
    t: Merges,
    f: Seq<int>,
    parent: Seq<u16>,
    depth: Seq<u16>,
    c: Seq<u32>,
    d: nat,
    max: int,
)
    requires
        t.is_tree(f, parent),
        d <= max,
        forall|x: int| 1 <= x <= max ==> #[trigger] c[x] == free(parent, depth, 0, 0, f.len() - 2, x),
    ensures
        leaves(c, d) == optimality::shallow(t, depth, f.len() as int, 0, d as int),
    decreases d,
{
    lemma_free_leaves(t, f, parent, depth, 0, d as int);
    if d > 0 {
        lemma_counts_shallow(t, f, parent, depth, c, (d - 1) as nat, max);
    }
}

proof fn lemma_zero_counts(c: Seq<u32>, k: nat)
    requires
        k < c.len(),
        forall|d: int| 0 <= d < c.len() ==> #[trigger] c[d] == 0,
    ensures
        leaves(c, k) == 0,
        share(c, k) == 0,
    decreases k,
{
    if k > 0 {
        lemma_zero_counts(c, (k - 1) as nat);
        assert(c[k as int] == 0);
        assert(0 * codes::weight(k as int) == 0);
    }
}

proof fn lemma_each_count(c: Seq<u32>, k: nat)
    requires
        k < c.len(),
    ensures
        leaves(c, k) >= 0,
        forall|d: int| 1 <= d <= k ==> #[trigger] c[d] <= leaves(c, k),
    decreases k,
{
    if k > 0 {
        lemma_each_count(c, (k - 1) as nat);
    }
}

/// Place `j` of `m` in ascending order is one of those that get length `d`.
pub open spec fn placed(c: Seq<u32>, m: int, j: int, d: int) -> bool {
    &&& 1 <= d <= 15
    &&& m - leaves(c, d as nat) <= j < m - leaves(c, (d - 1) as nat)
}

/// Assign the codeword lengths: the longest to the symbols that occur least.
fn assign_lengths(sorted: &Vec<u32>, counts: &[u32; 16], max: u32, lens: &mut [u8], freqs: Ghost<Seq<u32>>)
    requires
        sorted_symbols(freqs@, sorted@),
        old(lens)@.len() == freqs@.len(),
        freqs@.len() <= 1024,
        1 <= max <= 15,
        counts_ok(counts@, sorted@.len() as int, max as int),
        forall|s: int| 0 <= s < old(lens)@.len() ==> #[trigger] old(lens)@[s] == 0,
    ensures
        final(lens)@.len() == old(lens)@.len(),
        forall|s: int| 0 <= s < final(lens)@.len() ==> #[trigger] final(lens)@[s] <= max,
        codes::complete(final(lens)@),
        forall|s: int|
            0 <= s < final(lens)@.len() ==> (#[trigger] final(lens)@[s] > 0 <==> freqs@[s] > 0),
        forall|s: int, t: int|
            0 <= s < freqs@.len() && 0 <= t < freqs@.len() && 0 < freqs@[t] < freqs@[s]
                ==> #[trigger] final(lens)@[s] <= #[trigger] final(lens)@[t],
        forall|j: int|
            0 <= j < sorted@.len() ==> placed(
                counts@,
                sorted@.len() as int,
                j,
                final(lens)@[(#[trigger] sorted@[j]) as int % 1024] as int,
            ),
{
    let m: usize = sorted.len();
    let mut i: usize = 0;
    let mut len: u32 = max;
    proof {
        codes::lemma_empty_kraft(lens@, lens@.len());
        lemma_tail_zero(counts@, max as int, 15);
    }
    while len >= 1
        invariant
            m == sorted@.len(),
            0 <= len <= max <= 15,
            sorted_symbols(freqs@, sorted@),
            lens@.len() == freqs@.len(),
            freqs@.len() <= 1024,
            counts_ok(counts@, m as int, max as int),
            i == m - leaves(counts@, len as nat),
            codes::mass(lens@, 16, 0, lens@.len()) == 32768 - share(counts@, len as nat),
            forall|s: int| 0 <= s < lens@.len() ==> #[trigger] lens@[s] <= max,
            forall|j: int|
                0 <= j < m ==> (if j < i {
                    lens@[(#[trigger] sorted@[j]) as int % 1024] > len
                } else {
                    lens@[sorted@[j] as int % 1024] == 0
                }),
            forall|j: int, k: int|
                0 <= j < k < i ==> lens@[(#[trigger] sorted@[j]) as int % 1024]
                    >= lens@[(#[trigger] sorted@[k]) as int % 1024],
            forall|s: int| 0 <= s < lens@.len() && freqs@[s] == 0 ==> #[trigger] lens@[s] == 0,
            forall|j: int|
                0 <= j < i ==> placed(
                    counts@,
                    m as int,
                    j,
                    lens@[(#[trigger] sorted@[j]) as int % 1024] as int,
                ),
        decreases len,
    {
        let count: u32 = counts[len as usize];
        let mut k: u32 = 0;
        proof {
            lemma_each_count(counts@, 15);
            lemma_each_count(counts@, (len - 1) as nat);
            assert(0 * codes::weight(len as int) == 0);
        }
        while k < count
            invariant
                m == sorted@.len(),
                1 <= len <= max <= 15,
                k <= count,
                count == counts@[len as int],
                sorted_symbols(freqs@, sorted@),
                lens@.len() == freqs@.len(),
                freqs@.len() <= 1024,
                leaves(counts@, (len - 1) as nat) >= 0,
                counts_ok(counts@, m as int, max as int),
                i == m - leaves(counts@, len as nat) + k,
                codes::mass(lens@, 16, 0, lens@.len()) == 32768 - share(counts@, len as nat) + k
                    * codes::weight(len as int),
                forall|s: int| 0 <= s < lens@.len() ==> #[trigger] lens@[s] <= max,
                forall|j: int|
                    0 <= j < m ==> (if j < i {
                        lens@[(#[trigger] sorted@[j]) as int % 1024] >= len
                    } else {
                        lens@[sorted@[j] as int % 1024] == 0
                    }),
                forall|j: int, q: int|
                    0 <= j < q < i ==> lens@[(#[trigger] sorted@[j]) as int % 1024]
                        >= lens@[(#[trigger] sorted@[q]) as int % 1024],
                forall|s: int| 0 <= s < lens@.len() && freqs@[s] == 0 ==> #[trigger] lens@[s] == 0,
                forall|j: int|
                    0 <= j < i ==> placed(
                        counts@,
                        m as int,
                        j,
                        lens@[(#[trigger] sorted@[j]) as int % 1024] as int,
                    ),
            decreases count - k,
        {
            let sym: usize = (sorted[i] % 1024) as usize;
            let ghost before = lens@;
            proof {
                let x = sorted@[i as int];
                assert(lens@[x as int % 1024] == 0);
                codes::lemma_kraft_update(lens@, sym as int, len as u8, lens@.len());
                assert((k + 1) * codes::weight(len as int) == k * codes::weight(len as int)
                    + codes::weight(len as int)) by (nonlinear_arith);
            }
            lens[sym] = len as u8;
            proof {
                assert forall|j: int| 0 <= j < m && j != i implies (#[trigger] sorted@[j]) as int
                    % 1024 != sym by {
                    let a = sorted@[j];
                    let b = sorted@[i as int];
                    assert(a == packed(freqs@, a as int % 1024));
                    assert(b == packed(freqs@, b as int % 1024));
                    assert(a != b);
                }
            }
            i = i + 1;
            k = k + 1;
        }
        len = len - 1;
    }
    proof {
        assert forall|s: int| 0 <= s < lens@.len() && freqs@[s] > 0 implies #[trigger] lens@[s] > 0 by {
            assert(freqs@[s] > 0);
            let j = choose|j: int| 0 <= j < m && sorted@[j] as int % 1024 == s;
            assert(lens@[sorted@[j] as int % 1024] > 0);
        }
        assert forall|s: int, t: int|
            0 <= s < freqs@.len() && 0 <= t < freqs@.len() && 0 < freqs@[t] < freqs@[s] implies #[trigger] lens@[s]
            <= #[trigger] lens@[t] by {
            assert(freqs@[s] > 0 && freqs@[t] > 0);
            let j = choose|j: int| 0 <= j < m && sorted@[j] as int % 1024 == s;
            let k = choose|k: int| 0 <= k < m && sorted@[k] as int % 1024 == t;
            assert(sorted@[j] == packed(freqs@, s));
            assert(sorted@[k] == packed(freqs@, t));
            if j < k {
                assert(sorted@[j] <= sorted@[k]);
            }
            assert(k < j);
        }
    }
}

proof fn lemma_tail_zero(c: Seq<u32>, max: int, k: nat)
    requires
        c.len() == 16,
        1 <= max <= k <= 15,
        forall|d: int| max < d < 16 ==> #[trigger] c[d] == 0,
    ensures
        leaves(c, k) == leaves(c, max as nat),
        share(c, k) == share(c, max as nat),
    decreases k,
{
    if k > max {
        lemma_tail_zero(c, max, (k - 1) as nat);
        assert(c[k as int] == 0);
        assert(0 * codes::weight(k as int) == 0);
    }
}

/// Generate the canonical codewords, with their bits reversed.
pub fn gen_codewords(lens: &[u8], codewords: &mut [u32])
    requires
        lens@.len() == old(codewords)@.len(),
        lens@.len() <= 1024,
        codes::bounded(lens@),
        codes::kraft(lens@) <= 32768,
    ensures
        codes::has_codewords(lens@, final(codewords)@),
        forall|s: int|
            0 <= s < lens@.len() && !codes::used(lens@, s) ==> #[trigger] final(codewords)@[s] == old(
                codewords,
            )@[s],
{
    let n: usize = lens.len();
    let mut total: u32 = 0;
    let mut l: u8 = 1;
    proof {
        codes::lemma_mass_first(lens@, n as nat);
    }
    while l <= 15
        invariant
            n == lens@.len() == codewords@.len(),
            old(codewords)@.len() == n,
            n <= 1024,
            1 <= l <= 16,
            codes::bounded(lens@),
            codes::kraft(lens@) <= 32768,
            total == codes::mass(lens@, l as int, 0, n as nat),
            forall|s: int|
                codes::used(lens@, s) && lens@[s] < l ==> #[trigger] codewords@[s] == bits::rev(
                    codes::codeword(lens@, s),
                    lens@[s] as nat,
                ),
            forall|s: int|
                0 <= s < n && !codes::used(lens@, s) ==> #[trigger] codewords@[s] == old(
                    codewords,
                )@[s],
        decreases 16 - l,
    {
        let mut sym: usize = 0;
        while sym < n
            invariant
                n == lens@.len() == codewords@.len(),
                old(codewords)@.len() == n,
                n <= 1024,
                1 <= l <= 15,
                sym <= n,
                codes::bounded(lens@),
                codes::kraft(lens@) <= 32768,
                total == codes::mass(lens@, l as int, sym as int, n as nat),
                forall|s: int|
                    codes::used(lens@, s) && (lens@[s] < l || (lens@[s] == l && s < sym))
                        ==> #[trigger] codewords@[s] == bits::rev(
                        codes::codeword(lens@, s),
                        lens@[s] as nat,
                    ),
                forall|s: int|
                    0 <= s < n && !codes::used(lens@, s) ==> #[trigger] codewords@[s] == old(
                        codewords,
                    )@[s],
            decreases n - sym,
        {
            proof {
                codes::lemma_mass_step(lens@, l as int, sym as int, n as nat);
                codes::lemma_mass_nonneg(lens@, l as int, sym as int, n as nat);
                codes::lemma_weight_pos(l as int);
            }
            if lens[sym] == l {
                proof {
                    codes::lemma_codeword(lens@, sym as int);
                }
                let w: u32 = pow2_u32((15 - l) as u32);
                codewords[sym] = reverse_codeword(total / w, l);
                total = total + w;
            }
            sym = sym + 1;
        }
        proof {
            codes::lemma_mass_next_len(lens@, l as int, n as int, n as nat);
        }
        l = l + 1;
    }
}

/// Build a length-limited canonical Huffman code.
///
/// Given symbol frequencies, produces codewords and codeword lengths. A code
/// for fewer than two used symbols gets two codewords of one bit.
pub fn make_huffman_code(
    num_syms: usize,
    max_codeword_len: u32,
    freqs: &[u32],
    lens: &mut [u8],
    codewords: &mut [u32],
)
    requires
        2 <= num_syms <= 1024,
        num_syms == freqs@.len(),
        num_syms == old(lens)@.len(),
        num_syms == old(codewords)@.len(),
        1 <= max_codeword_len <= 15,
        used_count(freqs@, num_syms as nat) <= pow2(max_codeword_len as nat),
        forall|s: int| 0 <= s < freqs@.len() ==> #[trigger] freqs@[s] < 0x40_0000,
    ensures
        final(lens)@.len() == num_syms,
        forall|s: int| 0 <= s < num_syms ==> #[trigger] final(lens)@[s] <= max_codeword_len,
        codes::complete(final(lens)@),
        codes::has_codewords(final(lens)@, final(codewords)@),
        forall|s: int| 0 <= s < num_syms && freqs@[s] > 0 ==> #[trigger] final(lens)@[s] > 0,
        used_count(freqs@, num_syms as nat) >= 2 ==> forall|s: int|
            0 <= s < num_syms && #[trigger] final(lens)@[s] > 0 ==> freqs@[s] > 0,
        used_count(freqs@, num_syms as nat) < 2 ==> forall|s: int|
            0 <= s < num_syms ==> (#[trigger] final(lens)@[s] == if s == 0 || s == other_symbol(
                freqs@,
                num_syms as nat,
            ) {
                1u8
            } else {
                0
            }),
        forall|s: int, t: int|
            0 <= s < num_syms && 0 <= t < num_syms && 0 < freqs@[t] < freqs@[s]
                ==> #[trigger] final(lens)@[s] <= #[trigger] final(lens)@[t],
        (forall|s: int| 0 <= s < num_syms ==> #[trigger] final(lens)@[s] < max_codeword_len)
            ==> cheapest(freqs@, final(lens)@),
        huffman_model::fits(freqs@, max_codeword_len as int) ==> cheapest(freqs@, final(lens)@),
        huffman_model::lengths_for(freqs@, max_codeword_len as int, final(lens)@),
{
    let sorted: Vec<u32> = sort_symbols(freqs);
    let used: usize = sorted.len();
    let mut i: usize = 0;
    while i < num_syms
        invariant
            i <= num_syms == lens@.len() == codewords@.len(),
            forall|s: int| 0 <= s < i ==> #[trigger] lens@[s] == 0,
            forall|s: int| 0 <= s < i ==> #[trigger] codewords@[s] == 0,
        decreases num_syms - i,
    {
        lens[i] = 0;
        codewords[i] = 0;
        i = i + 1;
    }
    proof {
        lemma_used_count(freqs@, sorted@);
    }
    if used < 2 {
        let sym: usize = if used > 0 {
            (sorted[0] % 1024) as usize
        } else {
            0
        };
        let other: usize = if sym != 0 {
            sym
        } else {
            1
        };
        proof {
            let z = lens@;
            codes::lemma_empty_kraft(z, z.len());
            codes::lemma_kraft_update(z, 0, 1, z.len());
            codes::lemma_kraft_update(z.update(0, 1), other as int, 1, z.len());
            lemma2_to64();
            if used == 1 {
                let p = sorted@[0];
                assert(p == packed(freqs@, p as int % 1024));
            }
            lemma_other_symbol(freqs@, sorted@, other as int);
        }
        lens[0] = 1;
        lens[other] = 1;
        gen_codewords(lens, codewords);
        proof {
            reveal(huffman_model::lengths_for);
            assert forall|s: int| 0 <= s < num_syms && freqs@[s] > 0 implies #[trigger] lens@[s] > 0 by {
                assert(freqs@[s] > 0);
                let k = choose|k: int| 0 <= k < sorted@.len() && sorted@[k] as int % 1024 == s;
                assert(k == 0);
            }
            assert forall|s: int, t: int|
                0 <= s < num_syms && 0 <= t < num_syms && 0 < freqs@[t] < freqs@[s] implies #[trigger] lens@[s]
                <= #[trigger] lens@[t] by {
                assert(freqs@[s] > 0 && freqs@[t] > 0);
                let j = choose|j: int| 0 <= j < sorted@.len() && sorted@[j] as int % 1024 == s;
                let k = choose|k: int| 0 <= k < sorted@.len() && sorted@[k] as int % 1024 == t;
                assert(j == 0 && k == 0);
            }
            assert forall|o: Seq<u8>|
                {
                    &&& o.len() == freqs@.len()
                    &&& codes::bounded(o)
                    &&& codes::kraft(o) <= codes::line()
                    &&& forall|s: int| 0 <= s < freqs@.len() && freqs@[s] > 0 ==> #[trigger] o[s] > 0
                } implies code_cost(freqs@, lens@, freqs@.len()) <= #[trigger] code_cost(
                freqs@,
                o,
                freqs@.len(),
            ) by {
                assert forall|s: int| 0 <= s < freqs@.len() && freqs@[s] > 0 implies #[trigger] lens@[s]
                    <= o[s] by {
                    assert(o[s] > 0);
                }
                lemma_cost_mono(freqs@, lens@, o, freqs@.len());
            }
        }
        return;
    }
    let (parent, Ghost(t)) = build_tree(&sorted);
    let (counts, Ghost(depth)) = compute_length_counts(&parent, max_codeword_len);
    assign_lengths(&sorted, &counts, max_codeword_len, lens, Ghost(freqs@));
    proof {
        assert(huffman_model::assigned(freqs@, sorted@, max_codeword_len as int, lens@));
        reveal(huffman_model::lengths_for);
        if forall|s: int| 0 <= s < num_syms ==> #[trigger] lens@[s] < max_codeword_len {
            lemma_limit_unused(
                freqs@,
                sorted@,
                lens@,
                counts@,
                depth[0] as int,
                max_codeword_len as int,
            );
        }
        if huffman_model::fits(freqs@, max_codeword_len as int) {
            let v = choose|v: Seq<u32>| #[trigger]
                sorted_symbols(freqs@, v) && (v.len() < 2 || huffman_model::deepest(
                    v,
                    max_codeword_len as int,
                ) < max_codeword_len);
            uniqueness::lemma_sorted_once(freqs@, sorted@, v);
            assert(depth[0] < max_codeword_len);
        }
        if depth[0] < max_codeword_len {
            lemma_cheapest(
                freqs@,
                sorted@,
                lens@,
                t,
                parent@,
                depth,
                counts@,
                max_codeword_len as int,
            );
        }
    }
    gen_codewords(lens, codewords);
}

/// If all codewords are shorter than the limit, the tree was not too deep.
proof fn lemma_limit_unused(
    freqs: Seq<u32>,
    sorted: Seq<u32>,
    lens: Seq<u8>,
    c: Seq<u32>,
    deepest: int,
    max: int,
)
    requires
        sorted_symbols(freqs, sorted),
        lens.len() == freqs.len(),
        1 <= max <= 15,
        counts_ok(c, sorted.len() as int, max),
        forall|s: int| 0 <= s < lens.len() ==> #[trigger] lens[s] < max,
        forall|j: int|
            0 <= j < sorted.len() ==> placed(
                c,
                sorted.len() as int,
                j,
                lens[(#[trigger] sorted[j]) as int % 1024] as int,
            ),
        deepest >= max ==> c[max] >= 1,
        sorted.len() >= 1,
    ensures
        deepest < max,
{
    if deepest >= max {
        // The first symbol in order has the greatest length.
        let m = sorted.len() as int;
        let d = lens[sorted[0] as int % 1024] as int;
        assert(placed(c, m, 0, d));
        lemma_leaves_mono(c, d as nat, (max - 1) as nat);
        lemma_leaves_mono(c, max as nat, 15);
        assert(leaves(c, max as nat) == leaves(c, (max - 1) as nat) + c[max]);
    }
}

pub proof fn lemma_leaves_mono(c: Seq<u32>, a: nat, b: nat)
    requires
        a <= b,
    ensures
        leaves(c, a) <= leaves(c, b),
    decreases b,
{
    if a < b {
        lemma_leaves_mono(c, a, (b - 1) as nat);
    }
}

/// The cost of a code: the frequencies times the codeword lengths of the first `n`
/// symbols.
pub open spec fn code_cost(freqs: Seq<u32>, lens: Seq<u8>, n: nat) -> int
    decreases n,
{
    if n == 0 {
        0
    } else {
        code_cost(freqs, lens, (n - 1) as nat) + freqs[n - 1] * lens[n - 1]
    }
}

/// No code that has a codeword for each symbol that occurs costs less.
pub open spec fn cheapest(freqs: Seq<u32>, lens: Seq<u8>) -> bool {
    forall|other: Seq<u8>|
        {
            &&& other.len() == freqs.len()
            &&& codes::bounded(other)
            &&& codes::kraft(other) <= codes::line()
            &&& forall|s: int| 0 <= s < freqs.len() && freqs[s] > 0 ==> #[trigger] other[s] > 0
        } ==> code_cost(freqs, lens, freqs.len()) <= #[trigger] code_cost(
            freqs,
            other,
            freqs.len(),
        )
}

proof fn lemma_cost_update(freqs: Seq<u32>, lens: Seq<u8>, s: int, v: u8, n: nat)
    requires
        0 <= s < lens.len(),
        n <= lens.len(),
        lens[s] == 0,
    ensures
        code_cost(freqs, lens.update(s, v), n) == code_cost(freqs, lens, n) + if s < n {
            freqs[s] * v
        } else {
            0
        },
    decreases n,
{
    if n > 0 {
        lemma_cost_update(freqs, lens, s, v, (n - 1) as nat);
        if s == n - 1 {
            assert(freqs[s] * 0 == 0);
        }
    }
}

proof fn lemma_cost_mono(freqs: Seq<u32>, a: Seq<u8>, b: Seq<u8>, n: nat)
    requires
        n <= freqs.len(),
        forall|s: int| 0 <= s < n && freqs[s] > 0 ==> #[trigger] a[s] <= b[s],
    ensures
        code_cost(freqs, a, n) <= code_cost(freqs, b, n),
    decreases n,
{
    if n > 0 {
        lemma_cost_mono(freqs, a, b, (n - 1) as nat);
        let f = freqs[n - 1] as int;
        let x = a[n - 1] as int;
        let y = b[n - 1] as int;
        assert(f * x <= f * y) by (nonlinear_arith)
            requires
                f == 0 || (f > 0 && x <= y),
        ;
    }
}

proof fn lemma_zero_cost(freqs: Seq<u32>, lens: Seq<u8>, n: nat)
    requires
        n <= lens.len(),
        forall|s: int| 0 <= s < n ==> #[trigger] lens[s] == 0,
    ensures
        code_cost(freqs, lens, n) == 0,
    decreases n,
{
    if n > 0 {
        lemma_zero_cost(freqs, lens, (n - 1) as nat);
        assert(freqs[n - 1] * 0 == 0);
    }
}

/// The codeword lengths of the symbols in ascending order.
spec fn in_order(sorted: Seq<u32>, lens: Seq<u8>) -> Seq<int> {
    Seq::new(sorted.len(), |j: int| lens[sorted[j] as int % 1024] as int)
}

/// The codeword lengths of the first `t` symbols in ascending order, and none for the
/// others.
proof fn lemma_first_lens(freqs: Seq<u32>, sorted: Seq<u32>, lens: Seq<u8>, t: int) -> (z: Seq<u8>)
    requires
        sorted_symbols(freqs, sorted),
        lens.len() == freqs.len(),
        freqs.len() <= 1024,
        codes::bounded(lens),
        forall|s: int| 0 <= s < freqs.len() && freqs[s] > 0 ==> #[trigger] lens[s] > 0,
        0 <= t <= sorted.len(),
    ensures
        z.len() == lens.len(),
        forall|s: int| 0 <= s < z.len() ==> #[trigger] z[s] == 0 || z[s] == lens[s],
        forall|j: int|
            0 <= j < sorted.len() ==> z[(#[trigger] sorted[j]) as int % 1024] == if j < t {
                lens[sorted[j] as int % 1024]
            } else {
                0
            },
        codes::kraft(z) == optimality::filled(in_order(sorted, lens).take(t)),
        code_cost(freqs, z, z.len()) == optimality::dot(
            weights(sorted).take(t),
            in_order(sorted, lens).take(t),
        ),
    decreases t,
{
    let l = in_order(sorted, lens);
    let f = weights(sorted);
    if t == 0 {
        let z = Seq::new(lens.len(), |s: int| 0u8);
        codes::lemma_empty_kraft(z, z.len());
        lemma_zero_cost(freqs, z, z.len());
        z
    } else {
        let y = lemma_first_lens(freqs, sorted, lens, t - 1);
        let x = sorted[t - 1];
        let s = x as int % 1024;
        assert(y[s] == 0);
        assert(lens[s] > 0 && lens[s] <= 15);
        let z = y.update(s, lens[s]);
        codes::lemma_kraft_update(y, s, lens[s], y.len());
        lemma_cost_update(freqs, y, s, lens[s], y.len());
        assert(l.take(t).drop_last() =~= l.take(t - 1));
        assert(f.take(t).drop_last() =~= f.take(t - 1));
        assert(x == packed(freqs, s));
        assert(f[t - 1] == freqs[s]);
        assert forall|j: int| 0 <= j < sorted.len() && j != t - 1 implies (#[trigger] sorted[j]) as int
            % 1024 != s by {
            let a = sorted[j];
            assert(a == packed(freqs, a as int % 1024));
            assert(a != x);
        }
        z
    }
}

proof fn lemma_mass_part(a: Seq<u8>, b: Seq<u8>, n: nat)
    requires
        n <= a.len(),
        a.len() == b.len(),
        codes::bounded(b),
        forall|s: int| 0 <= s < a.len() ==> #[trigger] a[s] == 0 || a[s] == b[s],
    ensures
        codes::mass(a, 16, 0, n) <= codes::mass(b, 16, 0, n),
    decreases n,
{
    if n > 0 {
        lemma_mass_part(a, b, (n - 1) as nat);
        codes::lemma_weight_pos(b[n - 1] as int);
    }
}

/// The cost of a code and its share of the number line, in ascending order.
proof fn lemma_in_order(freqs: Seq<u32>, sorted: Seq<u32>, lens: Seq<u8>)
    requires
        sorted_symbols(freqs, sorted),
        lens.len() == freqs.len(),
        freqs.len() <= 1024,
        codes::bounded(lens),
        forall|s: int| 0 <= s < freqs.len() && freqs[s] > 0 ==> #[trigger] lens[s] > 0,
    ensures
        optimality::filled(in_order(sorted, lens)) <= codes::kraft(lens),
        code_cost(freqs, lens, freqs.len()) == optimality::dot(
            weights(sorted),
            in_order(sorted, lens),
        ),
{
    let m = sorted.len() as int;
    let z = lemma_first_lens(freqs, sorted, lens, m);
    assert(in_order(sorted, lens).take(m) =~= in_order(sorted, lens));
    assert(weights(sorted).take(m) =~= weights(sorted));
    lemma_mass_part(z, lens, z.len());
    assert forall|s: int| 0 <= s < freqs.len() && freqs[s] > 0 implies #[trigger] lens[s] <= z[s]
        && z[s] <= lens[s] by {
        assert(freqs[s] > 0);
        let j = choose|j: int| 0 <= j < sorted.len() && sorted[j] as int % 1024 == s;
        assert(z[sorted[j] as int % 1024] == lens[s]);
    }
    lemma_cost_mono(freqs, lens, z, freqs.len());
    lemma_cost_mono(freqs, z, lens, freqs.len());
}

/// The depths of a tree that is not too deep are the cheapest code.
proof fn lemma_cheapest(
    freqs: Seq<u32>,
    sorted: Seq<u32>,
    lens: Seq<u8>,
    t: Merges,
    parent: Seq<u16>,
    depth: Seq<u16>,
    c: Seq<u32>,
    max: int,
)
    requires
        sorted_symbols(freqs, sorted),
        lens.len() == freqs.len(),
        freqs.len() <= 1024,
        1 <= max <= 15,
        codes::bounded(lens),
        forall|s: int| 0 <= s < freqs.len() && freqs[s] > 0 ==> #[trigger] lens[s] > 0,
        forall|s: int| 0 <= s < lens.len() ==> #[trigger] lens[s] <= max,
        t.is_tree(weights(sorted), parent),
        optimality::depths_ok(parent, depth, sorted.len() as int),
        forall|x: int|
            1 <= x <= max ==> #[trigger] c[x] == free(parent, depth, 0, 0, sorted.len() - 2, x),
        forall|j: int|
            0 <= j < sorted.len() ==> placed(
                c,
                sorted.len() as int,
                j,
                lens[(#[trigger] sorted[j]) as int % 1024] as int,
            ),
    ensures
        cheapest(freqs, lens),
{
    let f = weights(sorted);
    let n = sorted.len() as int;
    let l = in_order(sorted, lens);
    let ld = optimality::leaf_depths(t, depth, n);
    assert forall|j: int| 0 <= j < n implies #[trigger] l[j] == ld[j] by {
        let d = lens[sorted[j] as int % 1024] as int;
        assert(placed(c, n, j, d));
        lemma_counts_shallow(t, f, parent, depth, c, d as nat, max);
        lemma_counts_shallow(t, f, parent, depth, c, (d - 1) as nat, max);
        optimality::lemma_shallow_leaf(t, f, parent, depth, j, d);
        optimality::lemma_shallow_leaf(t, f, parent, depth, j, d - 1);
    }
    assert(l =~= ld);
    lemma_in_order(freqs, sorted, lens);
    assert forall|other: Seq<u8>|
        {
            &&& other.len() == freqs.len()
            &&& codes::bounded(other)
            &&& codes::kraft(other) <= codes::line()
            &&& forall|s: int| 0 <= s < freqs.len() && freqs[s] > 0 ==> #[trigger] other[s] > 0
        } implies code_cost(freqs, lens, freqs.len()) <= #[trigger] code_cost(
        freqs,
        other,
        freqs.len(),
    ) by {
        lemma_in_order(freqs, sorted, other);
        let o = in_order(sorted, other);
        assert(optimality::code(o)) by {
            assert forall|k: int| 0 <= k < o.len() implies 0 <= #[trigger] o[k] <= 15 by {
                let s = sorted[k] as int % 1024;
                assert(other[s] <= 15);
            }
        }
        optimality::lemma_tree_best(t, f, parent, depth, o);
    }
}

/// The number of symbols below `n` that occur.
pub open spec fn used_count(freqs: Seq<u32>, n: nat) -> int
    decreases n,
{
    if n == 0 {
        0
    } else {
        used_count(freqs, (n - 1) as nat) + if freqs[n - 1] > 0 {
            1int
        } else {
            0
        }
    }
}

/// The symbol that shares a code of two one-bit codewords with symbol 0: the
/// one that occurs, or else symbol 1.
pub open spec fn other_symbol(freqs: Seq<u32>, n: nat) -> int
    decreases n,
{
    if n <= 1 {
        1
    } else if freqs[n - 1] > 0 {
        n - 1
    } else {
        other_symbol(freqs, (n - 1) as nat)
    }
}

/// The used symbols among the first `n`.
spec fn used_set(freqs: Seq<u32>, n: nat) -> Set<int>
    decreases n,
{
    if n == 0 {
        Set::empty()
    } else if freqs[n - 1] > 0 {
        used_set(freqs, (n - 1) as nat).insert(n - 1)
    } else {
        used_set(freqs, (n - 1) as nat)
    }
}

proof fn lemma_used_set(freqs: Seq<u32>, n: nat)
    ensures
        used_set(freqs, n).finite(),
        used_set(freqs, n).len() == used_count(freqs, n),
        forall|s: int| #[trigger] used_set(freqs, n).contains(s) <==> 0 <= s < n && freqs[s] > 0,
    decreases n,
{
    if n > 0 {
        lemma_used_set(freqs, (n - 1) as nat);
    }
}

/// There are no more used symbols than symbols.
pub proof fn lemma_used_bound(freqs: Seq<u32>, n: nat)
    ensures
        0 <= used_count(freqs, n) <= n,
    decreases n,
{
    if n > 0 {
        lemma_used_bound(freqs, (n - 1) as nat);
    }
}

/// As many symbols are sorted as occur.
proof fn lemma_used_count(freqs: Seq<u32>, v: Seq<u32>)
    requires
        sorted_symbols(freqs, v),
        freqs.len() <= 1024,
    ensures
        v.len() <= used_count(freqs, freqs.len()),
        (used_count(freqs, freqs.len()) >= 2) == (v.len() >= 2),
{
    let syms = Seq::new(v.len(), |k: int| v[k] as int % 1024);
    assert(syms.no_duplicates()) by {
        assert forall|i: int, j: int| 0 <= i < j < syms.len() implies syms[i] != syms[j] by {
            assert(v[i] == packed(freqs, syms[i]) && v[j] == packed(freqs, syms[j]));
            assert(v[i] != v[j]);
        }
    }
    syms.unique_seq_to_set();
    lemma_used_set(freqs, freqs.len());
    assert(syms.to_set().subset_of(used_set(freqs, freqs.len()))) by {
        assert forall|s: int| #[trigger] syms.to_set().contains(s) implies used_set(
            freqs,
            freqs.len(),
        ).contains(s) by {
            let k = choose|k: int| 0 <= k < syms.len() && syms[k] == s;
            assert(v[k] == packed(freqs, s));
        }
    }
    vstd::set_lib::lemma_len_subset(syms.to_set(), used_set(freqs, freqs.len()));
    if v.len() >= 2 {
        let a = v[0] as int % 1024;
        let b = v[1] as int % 1024;
        assert(v[0] == packed(freqs, a) && v[1] == packed(freqs, b));
        assert(v[0] != v[1]);
        if a < b {
            lemma_two_used(freqs, a, b, freqs.len());
        } else {
            lemma_two_used(freqs, b, a, freqs.len());
        }
    } else {
        lemma_one_used(freqs, v, freqs.len());
    }
}

proof fn lemma_two_used(freqs: Seq<u32>, a: int, b: int, n: nat)
    requires
        0 <= a < b < freqs.len(),
        n <= freqs.len(),
        freqs[a] > 0,
        freqs[b] > 0,
    ensures
        used_count(freqs, n) >= (if a < n {
            1int
        } else {
            0
        }) + (if b < n {
            1int
        } else {
            0
        }),
    decreases n,
{
    if n > 0 {
        lemma_two_used(freqs, a, b, (n - 1) as nat);
    }
}

proof fn lemma_one_used(freqs: Seq<u32>, v: Seq<u32>, n: nat)
    requires
        sorted_symbols(freqs, v),
        v.len() < 2,
        n <= freqs.len(),
    ensures
        used_count(freqs, n) == if v.len() == 1 && (v[0] as int % 1024) < n {
            1int
        } else {
            0
        },
    decreases n,
{
    if n > 0 {
        lemma_one_used(freqs, v, (n - 1) as nat);
        if freqs[n - 1] > 0 {
            let k = choose|k: int| 0 <= k < v.len() && v[k] as int % 1024 == n - 1;
            assert(k == 0);
        } else if v.len() == 1 {
            assert(freqs[v[0] as int % 1024] > 0);
        }
    }
}

proof fn lemma_other_symbol(freqs: Seq<u32>, v: Seq<u32>, other: int)
    requires
        sorted_symbols(freqs, v),
        v.len() < 2,
        freqs.len() >= 2,
        other == if v.len() == 1 && v[0] as int % 1024 != 0 {
            v[0] as int % 1024
        } else {
            1
        },
    ensures
        other_symbol(freqs, freqs.len()) == other,
{
    lemma_other_symbol_upto(freqs, v, freqs.len());
}

proof fn lemma_other_symbol_upto(freqs: Seq<u32>, v: Seq<u32>, n: nat)
    requires
        sorted_symbols(freqs, v),
        v.len() < 2,
        n <= freqs.len(),
    ensures
        other_symbol(freqs, n) == if v.len() == 1 && 0 < v[0] as int % 1024 < n {
            v[0] as int % 1024
        } else {
            1
        },
    decreases n,
{
    if n > 1 {
        lemma_other_symbol_upto(freqs, v, (n - 1) as nat);
        if freqs[n - 1] > 0 {
            let k = choose|k: int| 0 <= k < v.len() && v[k] as int % 1024 == n - 1;
            assert(k == 0);
        } else if v.len() == 1 {
            assert(freqs[v[0] as int % 1024] > 0);
        }
    }
}

} // verus!
