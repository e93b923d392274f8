//! The codeword lengths that Huffman's method gives, with a limit on them.

use crate::compress::huffman;
use vstd::prelude::*;

verus! {

/// A tree that grows: the weight and the parent of each inner node so far, and how many
/// leaves and inner nodes have been taken.
#[verifier::ext_equal]
pub struct Growth {
    pub weight: Seq<int>,
    pub parent: Seq<u16>,
    pub leaves: int,
    pub inner: int,
}

/// Two nodes become the children of a new one, those of the least weight among the leaves,
/// the weights of which are `f`, and the inner nodes without a parent: two leaves, two inner
/// nodes, or one of each. Of equal weights, leaves come first.
#[verifier::opaque]
pub open spec fn grow(f: Seq<int>, g: Growth) -> Growth {
    let e = g.weight.len() as int;
    let i = g.leaves;
    let b = g.inner;
    if i < f.len() - 1 && (b == e || f[i + 1] <= g.weight[b]) {
        Growth {
            weight: g.weight.push(f[i] + f[i + 1]),
            parent: g.parent.push(0),
            leaves: i + 2,
            inner: b,
        }
    } else if b + 2 <= e && (i > f.len() - 1 || g.weight[b + 1] < f[i]) {
        Growth {
            weight: g.weight.push(g.weight[b] + g.weight[b + 1]),
            parent: g.parent.update(b, e as u16).update(b + 1, e as u16).push(0),
            leaves: i,
            inner: b + 2,
        }
    } else {
        Growth {
            weight: g.weight.push(f[i] + g.weight[b]),
            parent: g.parent.update(b, e as u16).push(0),
            leaves: i + 1,
            inner: b + 1,
        }
    }
}

/// The tree after `k` new nodes.
pub open spec fn grown(f: Seq<int>, k: nat) -> Growth
    decreases k,
{
    if k == 0 {
        Growth { weight: Seq::empty(), parent: Seq::empty(), leaves: 0, inner: 0 }
    } else {
        grow(f, grown(f, (k - 1) as nat))
    }
}

/// The greatest length up to `d` that some codeword has.
pub open spec fn length_below(c: Seq<u32>, d: int) -> int
    decreases d,
{
    if d <= 0 || c[d] != 0 {
        d
    } else {
        length_below(c, d - 1)
    }
}

/// The number of codewords of each length, and the depth of each inner node.
#[verifier::ext_equal]
pub struct Counts {
    pub c: Seq<u32>,
    pub depth: Seq<u16>,
}

/// The inner node `node` takes the place of a leaf at its depth: there is one codeword less
/// of this length, and two of the next one. Where that would be longer than `max`, the
/// longest codeword that is shorter gives way instead.
#[verifier::opaque]
pub open spec fn split_leaf(parent: Seq<u16>, max: int, s: Counts, node: int) -> Counts {
    let full = s.depth[parent[node] as int] + 1;
    let d = if full >= max {
        length_below(s.c, max - 1)
    } else {
        full
    };
    let c = s.c.update(d, (s.c[d] - 1) as u32);
    Counts {
        c: c.update(d + 1, (c[d + 1] + 2) as u32),
        depth: s.depth.update(node, full as u16),
    }
}

/// The counts after the root and `k` more inner nodes, from the root on down.
pub open spec fn counted(parent: Seq<u16>, max: int, k: nat) -> Counts
    decreases k,
{
    if k == 0 {
        Counts {
            c: Seq::new(16, |d: int| 0u32).update(1, 2),
            depth: Seq::new(parent.len(), |q: int| 0u16),
        }
    } else {
        split_leaf(
            parent,
            max,
            counted(parent, max, (k - 1) as nat),
            parent.len() - 1 - k,
        )
    }
}

/// The number of codewords of each length for these symbols.
pub open spec fn length_counts(sorted: Seq<u32>, max: int) -> Seq<u32> {
    let n = sorted.len() as int;
    let tree = grown(huffman::weights(sorted), (n - 1) as nat);
    counted(tree.parent, max, (n - 2) as nat).c
}

/// The depth of the deepest inner node of the tree for these symbols. The codewords below it
/// are one bit longer, if there is no limit.
pub open spec fn deepest(sorted: Seq<u32>, max: int) -> int {
    let n = sorted.len() as int;
    let tree = grown(huffman::weights(sorted), (n - 1) as nat);
    counted(tree.parent, max, (n - 2) as nat).depth[0] as int
}

/// Huffman's method gives no length greater than `max` for these counters.
pub open spec fn fits(freqs: Seq<u32>, max: int) -> bool {
    exists|sorted: Seq<u32>| #[trigger]
        huffman::sorted_symbols(freqs, sorted) && (sorted.len() < 2 || deepest(sorted, max) < max)
}

/// The lengths go to the symbols in the order of how often they occur, the longest first;
/// symbols that do not occur have none.
pub open spec fn assigned(freqs: Seq<u32>, sorted: Seq<u32>, max: int, lens: Seq<u8>) -> bool {
    &&& huffman::sorted_symbols(freqs, sorted)
    &&& forall|j: int|
        0 <= j < sorted.len() ==> huffman::placed(
            length_counts(sorted, max),
            sorted.len() as int,
            j,
            lens[(#[trigger] sorted[j]) as int % 1024] as int,
        )
    &&& forall|s: int| 0 <= s < freqs.len() && freqs[s] == 0 ==> #[trigger] lens[s] == 0
}

/// The lengths are those that Huffman's method gives for these counters, none greater than
/// `max`. If fewer than two symbols occur, two symbols have codewords of one bit.
#[verifier::opaque]
pub open spec fn lengths_for(freqs: Seq<u32>, max: int, lens: Seq<u8>) -> bool {
    if huffman::used_count(freqs, freqs.len()) < 2 {
        forall|s: int|
            0 <= s < freqs.len() ==> (#[trigger] lens[s] == if s == 0 || s
                == huffman::other_symbol(freqs, freqs.len()) {
                1u8
            } else {
                0
            })
    } else {
        exists|sorted: Seq<u32>| #[trigger] assigned(freqs, sorted, max, lens)
    }
}

} // verus!
