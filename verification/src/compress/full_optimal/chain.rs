//! Hash chains over three bytes, and over runs of equal bytes.

use crate::arith::min_usize;
use vstd::prelude::*;

verus! {

/// Size of the window.
pub const WINDOW_SIZE: usize = 32768;

/// The longest match.
pub const MAX_MATCH: usize = 258;

/// The shortest match that is worth writing.
pub const MIN_MATCH: usize = 3;

/// How many positions of a chain are looked at.
pub const MAX_CHAIN_HITS: usize = 8192;

/// No position, or no hash.
pub const HASH_NONE: u16 = 65535;

/// Which chain to follow.
#[derive(Clone, Copy, PartialEq, Eq, Structural)]
pub enum WhichHash {
    /// That of three bytes.
    Hash1,
    /// That of three bytes and a run length.
    Hash2,
}

/// For each hash the last position, and for each position the one before it with the
/// same hash. Positions are taken modulo the window size.
pub struct HashChain {
    /// The last position with a hash.
    pub head: Vec<u16>,
    /// The position before a position, or itself.
    pub prev: Vec<u16>,
    /// The hash of a position.
    pub hashval: Vec<u16>,
    /// The current hash.
    pub val: u16,
}

impl HashChain {
    /// The tables have their sizes and hold positions in the window; if only positions
    /// before `next` have been entered and these lie in the first window, links go
    /// back only.
    pub open spec fn wf(&self, next: int) -> bool {
        &&& self.head@.len() == 65536
        &&& self.prev@.len() == 32768
        &&& self.hashval@.len() == 32768
        &&& forall|x: int|
            0 <= x < 65536 ==> #[trigger] self.head@[x] == HASH_NONE || self.head@[x] < 32768
        &&& forall|i: int| 0 <= i < 32768 ==> #[trigger] self.prev@[i] < 32768
        &&& next <= 32768 ==> {
            &&& forall|i: int| 0 <= i < 32768 ==> #[trigger] self.prev@[i] <= i
            &&& forall|x: int|
                0 <= x < 65536 ==> #[trigger] self.head@[x] == HASH_NONE || self.head@[x] < next
        }
    }

    /// The position that a new one with the current hash is linked to.
    pub open spec fn link(&self, hpos: int) -> u16 {
        let h = self.head@[self.val as int];
        if h != HASH_NONE && self.hashval@[h as int] == self.val {
            h
        } else {
            hpos as u16
        }
    }

    /// The chain after a position with the current hash has been entered.
    pub open spec fn entered(&self, o: Self, hpos: int) -> bool {
        &&& self.val == o.val
        &&& self.prev@ == o.prev@.update(hpos, o.link(hpos))
        &&& self.hashval@ == o.hashval@.update(hpos, o.val)
        &&& self.head@ == o.head@.update(o.val as int, hpos as u16)
    }

    /// What the chain holds.
    pub open spec fn view(&self) -> Links {
        Links { head: self.head@, prev: self.prev@, hashval: self.hashval@, val: self.val }
    }

    /// The chain holds no positions.
    pub open spec fn empty(&self) -> bool {
        &&& self.head@ == Seq::new(65536, |i: int| HASH_NONE)
        &&& self.prev@ == Seq::new(32768, |i: int| i as u16)
        &&& self.hashval@ == Seq::new(32768, |i: int| HASH_NONE)
        &&& self.val == 0
    }

    /// A chain without positions.
    pub fn new() -> (r: Self)
        ensures
            r.empty(),
            r.wf(0),
    {
        let mut prev: Vec<u16> = Vec::new();
        let mut i: u16 = 0;
        while i < 32768
            invariant
                i <= 32768,
                prev@.len() == i,
                forall|k: int| 0 <= k < i ==> #[trigger] prev@[k] == k,
            decreases 32768 - i,
        {
            prev.push(i);
            i = i + 1;
        }
        let head: Vec<u16> = vec![HASH_NONE; 65536];
        let hashval: Vec<u16> = vec![HASH_NONE; 32768];
        proof {
            assert(head@ =~= Seq::new(65536, |i: int| HASH_NONE));
            assert(prev@ =~= Seq::new(32768, |i: int| i as u16));
            assert(hashval@ =~= Seq::new(32768, |i: int| HASH_NONE));
        }
        HashChain { head, prev, hashval, val: 0 }
    }

    /// Forget all positions.
    pub fn reset(&mut self)
        ensures
            final(self).empty(),
            final(self).wf(0),
    {
        *self = HashChain::new();
    }

    /// Enter a position under the current hash.
    pub fn update(&mut self, hpos: usize, next: Ghost<int>)
        requires
            old(self).wf(next@),
            0 <= next@,
            hpos == next@ % 32768,
        ensures
            final(self).wf(next@ + 1),
            final(self).entered(*old(self), hpos as int),
    {
        let index: usize = self.val as usize;
        let head_index: u16 = self.head[index];
        let prev: u16 = if head_index != HASH_NONE && self.hashval[head_index as usize] == self.val {
            head_index
        } else {
            hpos as u16
        };
        self.prev.set(hpos, prev);
        self.hashval.set(hpos, self.val);
        self.head.set(index, hpos as u16);
    }
}

/// How many bytes behind position `p` equal the byte there, given that `k` of them do;
/// at most 65535.
pub open spec fn run_from(a: Seq<u8>, p: int, k: int) -> int
    decreases 65535 - k,
{
    if k < 65535 && p + k + 1 < a.len() && a[p + k + 1] == a[p] {
        run_from(a, p, k + 1)
    } else {
        k
    }
}

/// How many bytes behind position `p` equal the byte there.
pub open spec fn run_of(a: Seq<u8>, p: int) -> int {
    run_from(a, p, 0)
}

/// The bytes of a run are equal.
pub proof fn lemma_run(a: Seq<u8>, p: int, k: int)
    requires
        0 <= k <= 65535,
        0 <= p,
        p + k < a.len(),
        forall|i: int| p < i <= p + k ==> #[trigger] a[i] == a[p],
    ensures
        k <= run_from(a, p, k) <= 65535,
        p + run_from(a, p, k) < a.len(),
        forall|i: int| p < i <= p + run_from(a, p, k) ==> #[trigger] a[i] == a[p],
        run_of(a, p) == run_from(a, p, k),
    decreases 65535 - k,
{
    if k < 65535 && p + k + 1 < a.len() && a[p + k + 1] == a[p] {
        lemma_run(a, p, k + 1);
    }
    lemma_run_prefix(a, p, 0, k);
}

proof fn lemma_run_prefix(a: Seq<u8>, p: int, j: int, k: int)
    requires
        0 <= j <= k <= 65535,
        0 <= p,
        p + k < a.len(),
        forall|i: int| p < i <= p + k ==> #[trigger] a[i] == a[p],
    ensures
        run_from(a, p, j) == run_from(a, p, k),
    decreases k - j,
{
    if j < k {
        assert(a[p + j + 1] == a[p]);
        lemma_run_prefix(a, p, j + 1, k);
    }
}

/// Hash chains with the run lengths of the positions in the window.
pub struct ZopfliHash {
    pub hash1: HashChain,
    pub hash2: HashChain,
    /// How many bytes behind a position equal the byte there.
    pub same: Vec<u16>,
}

/// The hash with one more byte.
pub open spec fn hash_step(val: u16, c: u8) -> u16 {
    ((val << 5u16) ^ (c as u16)) & 32767u16
}

/// What a chain holds.
#[verifier::ext_equal]
pub struct Links {
    pub head: Seq<u16>,
    pub prev: Seq<u16>,
    pub hashval: Seq<u16>,
    pub val: u16,
}

impl Links {
    /// No positions.
    pub open spec fn fresh() -> Self {
        Links {
            head: Seq::new(65536, |i: int| HASH_NONE),
            prev: Seq::new(32768, |i: int| i as u16),
            hashval: Seq::new(32768, |i: int| HASH_NONE),
            val: 0,
        }
    }

    /// A position entered under a hash.
    pub open spec fn linked(self, hpos: int, val: u16) -> Self {
        let h = self.head[val as int];
        Links {
            head: self.head.update(val as int, hpos as u16),
            prev: self.prev.update(
                hpos,
                if h != HASH_NONE && self.hashval[h as int] == val {
                    h
                } else {
                    hpos as u16
                },
            ),
            hashval: self.hashval.update(hpos, val),
            val,
        }
    }
}

/// What the chains hold, with the run lengths of the positions in the window.
#[verifier::ext_equal]
pub struct Chains {
    pub one: Links,
    pub two: Links,
    pub same: Seq<u16>,
}

impl Chains {
    /// No positions.
    pub open spec fn fresh() -> Self {
        Chains { one: Links::fresh(), two: Links::fresh(), same: Seq::new(32768, |i: int| 0u16) }
    }

    /// The hash with the first bytes, at `pos`.
    pub open spec fn warmed(self, a: Seq<u8>, pos: int) -> Self {
        let v = hash_step(self.one.val, a[pos]);
        Chains {
            one: Links {
                val: if pos + 1 < a.len() {
                    hash_step(v, a[pos + 1])
                } else {
                    v
                },
                ..self.one
            },
            ..self
        }
    }

    /// A position of the data entered.
    pub open spec fn with(self, a: Seq<u8>, pos: int) -> Self {
        let hpos = pos % 32768;
        let v = hash_step(
            self.one.val,
            if pos + 2 < a.len() {
                a[pos + 2]
            } else {
                0
            },
        );
        let amount = run_of(a, pos) as u16;
        Chains {
            one: self.one.linked(hpos, v),
            two: self.two.linked(hpos, hash_run(v, amount)),
            same: self.same.update(hpos, amount),
        }
    }

    /// The positions from `from` to `to` entered.
    pub open spec fn entered(self, a: Seq<u8>, from: int, to: int) -> Self
        decreases to - from,
    {
        if from >= to {
            self
        } else {
            self.entered(a, from, to - 1).with(a, to - 1)
        }
    }
}

/// The second hash: the first one with a run length.
pub open spec fn hash_run(val: u16, amount: u16) -> u16 {
    (((amount as int - 3) % 65536) as u16 & 255u16) ^ val
}

impl ZopfliHash {
    /// Positions from `start` to `next` of the data have been entered, and those in the
    /// window have their run lengths.
    pub open spec fn knows(&self, a: Seq<u8>, start: int, next: int) -> bool {
        &&& 0 <= start <= next <= a.len()
        &&& self.hash1.wf(next)
        &&& self.hash2.wf(next)
        &&& self.hash1.val <= 32767
        &&& self.same@.len() == 32768
        &&& forall|q: int|
            start <= q < next && next - 32768 <= q ==> #[trigger] self.same@[q % 32768] == run_of(a, q)
        &&& next == start ==> forall|i: int| 0 <= i < 32768 ==> #[trigger] self.same@[i] == 0
    }

    /// What the chains hold.
    pub open spec fn view(&self) -> Chains {
        Chains { one: self.hash1@, two: self.hash2@, same: self.same@ }
    }

    /// Chains without positions.
    pub fn new() -> (r: Self)
        ensures
            r@ == Chains::fresh(),
            forall|a: Seq<u8>, s: int| 0 <= s <= a.len() ==> #[trigger] r.knows(a, s, s),
    {
        ZopfliHash {
            hash1: HashChain::new(),
            hash2: HashChain::new(),
            same: vec![0u16; 32768],
        }
    }

    /// Forget all positions.
    pub fn reset(&mut self)
        ensures
            final(self)@ == Chains::fresh(),
            forall|a: Seq<u8>, s: int| 0 <= s <= a.len() ==> #[trigger] final(self).knows(a, s, s),
    {
        *self = ZopfliHash::new();
    }

    /// Add a byte to the hash.
    fn update_val(&mut self, c: u8)
        requires
            old(self).hash1.val <= 32767,
        ensures
            final(self).hash1.val == hash_step(old(self).hash1.val, c),
            final(self).hash1.val <= 32767,
            final(self).hash1.head == old(self).hash1.head,
            final(self).hash1.prev == old(self).hash1.prev,
            final(self).hash1.hashval == old(self).hash1.hashval,
            final(self).hash2 == old(self).hash2,
            final(self).same == old(self).same,
    {
        let v: u16 = self.hash1.val;
        let r: u16 = ((v << 5u16) ^ (c as u16)) & 32767u16;
        assert(((v << 5u16) ^ (c as u16)) & 32767u16 <= 32767) by (bit_vector);
        self.hash1.val = r;
    }

    /// Add the first bytes to the hash.
    pub fn warmup(&mut self, arr: &[u8], pos: usize, start: Ghost<int>)
        requires
            old(self).knows(arr@, start@, start@),
            pos < arr@.len(),
        ensures
            final(self).knows(arr@, start@, start@),
            final(self)@ == old(self)@.warmed(arr@, pos as int),
    {
        let end: usize = arr.len();
        self.update_val(arr[pos]);
        if end - pos > 1 {
            self.update_val(arr[pos + 1]);
        }
    }

    /// Enter a position.
    pub fn update(&mut self, array: &[u8], pos: usize, start: Ghost<int>)
        requires
            old(self).knows(array@, start@, pos as int),
            pos < array@.len(),
        ensures
            final(self).knows(array@, start@, pos + 1),
            final(self)@ == old(self)@.with(array@, pos as int),
    {
        let n: usize = array.len();
        let ghost a = array@;
        let hash_value: u8 = if n - pos > 2 {
            array[pos + 2]
        } else {
            0
        };
        self.update_val(hash_value);
        let hpos: usize = pos % WINDOW_SIZE;
        self.hash1.update(hpos, Ghost(pos as int));
        let before: usize = if pos == 0 {
            32767
        } else {
            (pos - 1) % WINDOW_SIZE
        };
        let same: u16 = self.same[before];
        let mut amount: u16 = if same > 1 {
            same - 1
        } else {
            0
        };
        let byte: u8 = array[pos];
        let limit: usize = min_usize(n - pos, 65536);
        proof {
            if same > 1 {
                assert(pos > start@);
                let q = pos - 1;
                assert(self.same@[q % 32768] == run_of(a, q));
                lemma_run(a, q, 0);
                assert(a[q + 1] == a[q]);
                assert forall|i: int| pos < i <= pos + amount implies #[trigger] a[i] == a[pos as int] by {
                    assert(a[i] == a[q]);
                }
            }
            lemma_run(a, pos as int, amount as int);
        }
        while (amount as usize) + 1 < limit && array[pos + amount as usize + 1] == byte
            invariant
                a == array@,
                n == a.len(),
                pos < n,
                byte == a[pos as int],
                limit == if n - pos < 65536 {
                    n - pos
                } else {
                    65536
                },
                pos + amount < n,
                run_of(a, pos as int) == run_from(a, pos as int, amount as int),
            decreases 65536 - amount,
        {
            amount = amount + 1;
        }
        self.same.set(hpos, amount);
        let val: u16 = self.hash1.val;
        let short: u16 = amount.wrapping_sub(3);
        let v2: u16 = (short & 255u16) ^ val;
        self.hash2.val = v2;
        self.hash2.update(hpos, Ghost(pos as int));
        proof {
            assert forall|q: int|
                start@ <= q < pos + 1 && pos + 1 - 32768 <= q implies #[trigger] self.same@[q % 32768]
                == run_of(a, q) by {
                if q < pos {
                    assert(q % 32768 != hpos);
                }
            }
        }
    }

    /// The position before a position.
    pub fn prev_at(&self, index: usize, which: WhichHash) -> (r: usize)
        requires
            index < 32768,
            self.hash1.prev@.len() == 32768,
            self.hash2.prev@.len() == 32768,
            forall|i: int| 0 <= i < 32768 ==> #[trigger] self.hash1.prev@[i] < 32768,
            forall|i: int| 0 <= i < 32768 ==> #[trigger] self.hash2.prev@[i] < 32768,
        ensures
            r == match which {
                WhichHash::Hash1 => self.hash1.prev@[index as int],
                WhichHash::Hash2 => self.hash2.prev@[index as int],
            },
    {
        match which {
            WhichHash::Hash1 => self.hash1.prev[index] as usize,
            WhichHash::Hash2 => self.hash2.prev[index] as usize,
        }
    }

    /// The current second hash is the one of a position.
    pub fn hash2_is(&self, index: usize) -> (r: bool)
        requires
            index < 32768,
            self.hash2.hashval@.len() == 32768,
        ensures
            r == (self.hash2.hashval@[index as int] != HASH_NONE && self.hash2.val
                == self.hash2.hashval@[index as int]),
    {
        self.hash2.hashval[index] != HASH_NONE && self.hash2.val == self.hash2.hashval[index]
    }
}

} // verus!
