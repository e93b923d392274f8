//! Stores of literals and matches.

use crate::compress::block::DeflateFreqs;
use crate::compress::full_optimal::chain::{Chains, ZopfliHash, MAX_MATCH, MIN_MATCH, WINDOW_SIZE};
use crate::compress::full_optimal::search;
use crate::compress::full_optimal::search::{find_longest_match_no_cache, get_length_score};
use crate::compress::items;
use crate::compress::items::{get_length_slot, get_offset_slot};
use vstd::prelude::*;
use vstd::slice::slice_subrange;

verus! {

/// A literal, or a match of a length and a distance.
#[derive(Debug, Clone, Copy)]
pub enum LitLen {
    Literal(u16),
    LengthDist(u16, u16),
}

impl LitLen {
    /// The item that this is.
    pub open spec fn item(&self) -> (int, int) {
        match self {
            LitLen::Literal(_) => (1, 0),
            LitLen::LengthDist(len, dist) => (*len as int, *dist as int),
        }
    }

    /// It may stand at position `p` of the data.
    pub open spec fn stands_at(&self, h: Seq<u8>, p: int) -> bool {
        &&& items::item_ok(h, p, self.item())
        &&& match self {
            LitLen::Literal(lit) => *lit == h[p],
            LitLen::LengthDist(_, dist) => *dist > 0,
        }
    }

    /// How many bytes it stands for.
    pub fn size(&self) -> (r: usize)
        ensures
            r == self.item().0,
    {
        match self {
            LitLen::Literal(_) => 1,
            LitLen::LengthDist(len, _) => *len as usize,
        }
    }
}

/// The items of a store.
pub open spec fn items_of(ls: Seq<LitLen>) -> Seq<(int, int)> {
    Seq::new(ls.len(), |k: int| ls[k].item())
}

/// The literals and matches, one after the other from position `base` on, stand for the
/// data.
pub open spec fn stands_for(ls: Seq<LitLen>, h: Seq<u8>, base: int) -> bool
    decreases ls.len(),
{
    if ls.len() == 0 {
        true
    } else {
        &&& stands_for(ls.drop_last(), h, base)
        &&& ls.last().stands_at(h, items::end_of(base, items_of(ls.drop_last())))
    }
}

/// Where a store that starts at `base` ends.
pub open spec fn end_of(ls: Seq<LitLen>, base: int) -> int {
    items::end_of(base, items_of(ls))
}

/// One more literal or match.
pub proof fn lemma_push(ls: Seq<LitLen>, x: LitLen, h: Seq<u8>, base: int)
    ensures
        items_of(ls.push(x)) == items_of(ls).push(x.item()),
        end_of(ls.push(x), base) == end_of(ls, base) + x.item().0,
        stands_for(ls.push(x), h, base) == (stands_for(ls, h, base) && x.stands_at(
            h,
            end_of(ls, base),
        )),
{
    let l2 = ls.push(x);
    assert(l2.drop_last() =~= ls);
    assert(items_of(l2) =~= items_of(ls).push(x.item()));
    assert(items_of(ls).push(x.item()).drop_last() =~= items_of(ls));
}

/// What stands for the data is a parse of it.
pub proof fn lemma_parse(ls: Seq<LitLen>, h: Seq<u8>, base: int)
    requires
        stands_for(ls, h, base),
    ensures
        items::parse_ok(h, base, items_of(ls)),
    decreases ls.len(),
{
    if ls.len() > 0 {
        lemma_parse(ls.drop_last(), h, base);
        assert(items_of(ls).drop_last() =~= items_of(ls.drop_last()));
    }
}

/// The first literals and matches stand for the start of the data.
pub proof fn lemma_take(ls: Seq<LitLen>, h: Seq<u8>, base: int, k: int)
    requires
        stands_for(ls, h, base),
        0 <= k <= ls.len(),
    ensures
        stands_for(ls.take(k), h, base),
        k < ls.len() ==> ls[k].stands_at(h, end_of(ls.take(k), base)),
    decreases ls.len(),
{
    if k == ls.len() {
        assert(ls.take(k) =~= ls);
    } else {
        lemma_take(ls.drop_last(), h, base, k);
        assert(ls.drop_last().take(k) =~= ls.take(k));
        if k == ls.len() - 1 {
            assert(ls.take(k) =~= ls.drop_last());
        }
    }
}

/// What stands for data stands for it in more data too.
pub proof fn lemma_more(ls: Seq<LitLen>, h: Seq<u8>, base: int, n: int)
    requires
        0 <= n <= h.len(),
        0 <= base,
        stands_for(ls, h.subrange(0, n), base),
    ensures
        stands_for(ls, h, base),
        base <= end_of(ls, base),
    decreases ls.len(),
{
    if ls.len() > 0 {
        let d = ls.drop_last();
        lemma_more(d, h, base, n);
        assert(items_of(ls).drop_last() =~= items_of(d));
        let p = end_of(d, base);
        let it = ls.last().item();
        let s = h.subrange(0, n);
        assert(items::item_ok(s, p, it));
        if it.1 != 0 {
            assert forall|i: int| p <= i < p + it.0 implies #[trigger] h[i] == h[i - it.1] by {
                assert(s[i] == s[i - it.1]);
            }
        }
        assert(ls.last().stands_at(h, p));
    }
}

/// A store ends behind its start, within the data, and has no more entries than bytes.
pub proof fn lemma_within(ls: Seq<LitLen>, h: Seq<u8>, base: int)
    requires
        stands_for(ls, h, base),
        0 <= base <= h.len(),
    ensures
        base <= end_of(ls, base) <= h.len(),
        ls.len() <= end_of(ls, base) - base,
{
    lemma_parse(ls, h, base);
    items::lemma_parse_len(h, base, items_of(ls));
}

/// Enter positions into the chains.
pub fn enter_until(h: &mut ZopfliHash, array: &[u8], from: usize, to: usize, start: Ghost<int>)
    requires
        old(h).knows(array@, start@, from as int),
        from <= to <= array@.len(),
    ensures
        final(h).knows(array@, start@, to as int),
        final(h)@ == old(h)@.entered(array@, from as int, to as int),
{
    let mut q: usize = from;
    while q < to
        invariant
            h.knows(array@, start@, q as int),
            from <= q <= to <= array@.len(),
            h@ == old(h)@.entered(array@, from as int, q as int),
        decreases to - q,
    {
        h.update(array, q, start);
        q = q + 1;
    }
}

/// What a match is worth: far ones count one byte less.
pub open spec fn worth(len: int, dist: int) -> int {
    if dist > 1024 {
        len - 1
    } else {
        len
    }
}

/// The state of a greedy parse: the position, the chains before it, the literals and
/// matches so far, and the match at the position before it that was put off.
#[verifier::ext_equal]
pub struct Greedy {
    pub i: int,
    pub chains: Chains,
    pub ls: Seq<LitLen>,
    pub held: Option<(u16, u16)>,
}

impl Greedy {
    /// The match that was put off is taken.
    pub open spec fn takes_held(self, a: Seq<u8>, c: Chains, len: u16, dist: u16) -> Self {
        let next = self.i - 1 + len;
        Greedy {
            i: next,
            chains: c.entered(a, self.i + 1, next),
            ls: self.ls.push(LitLen::LengthDist(len, dist)),
            held: None,
        }
    }

    /// The match at the position is put off, taken, or passed over for a literal.
    pub open spec fn goes_on(self, a: Seq<u8>, c: Chains, len: int, dist: int) -> Self {
        let ls = if self.held is Some {
            self.ls.push(LitLen::Literal(a[self.i - 1] as u16))
        } else {
            self.ls
        };
        if worth(len, dist) < 3 {
            Greedy {
                i: self.i + 1,
                chains: c,
                ls: ls.push(LitLen::Literal(a[self.i] as u16)),
                held: None,
            }
        } else if len < 258 {
            Greedy { i: self.i + 1, chains: c, ls, held: Some((len as u16, dist as u16)) }
        } else {
            Greedy {
                i: self.i + len,
                chains: c.entered(a, self.i + 1, self.i + len),
                ls: ls.push(LitLen::LengthDist(len as u16, dist as u16)),
                held: None,
            }
        }
    }

    /// The parse with one more position looked at. A match that was put off is taken,
    /// unless the one at this position is worth at least two bytes more.
    pub open spec fn step(self, a: Seq<u8>) -> Self {
        let c = self.chains.with(a, self.i);
        let (len, dist) = search::longest(c, a, self.i, 258);
        match self.held {
            Some((l, d)) => if worth(len, dist) > worth(l as int, d as int) + 1 {
                self.goes_on(a, c, len, dist)
            } else {
                self.takes_held(a, c, l, d)
            },
            None => self.goes_on(a, c, len, dist),
        }
    }
}

/// The literals and matches of a greedy parse that goes on to the end of the data.
pub open spec fn greedy_from(a: Seq<u8>, g: Greedy) -> Seq<LitLen>
    decreases a.len() - g.i,
{
    if g.i >= a.len() {
        g.ls
    } else {
        let n = g.step(a);
        if n.i <= g.i || n.i >= a.len() {
            n.ls
        } else {
            greedy_from(a, n)
        }
    }
}

/// The greedy parse of the data from `instart` to `inend`.
pub open spec fn greedy_parse(h: Seq<u8>, instart: int, inend: int) -> Seq<LitLen> {
    if instart >= inend {
        Seq::empty()
    } else {
        let a = h.subrange(0, inend);
        let ws = if instart > 32768 {
            instart - 32768
        } else {
            0
        };
        greedy_from(
            a,
            Greedy {
                i: instart,
                chains: Chains::fresh().warmed(a, ws).entered(a, ws, instart),
                ls: Seq::empty(),
                held: None,
            },
        )
    }
}

/// Literals and matches.
pub struct Lz77Store {
    pub litlens: Vec<LitLen>,
}

impl Lz77Store {
    /// A store without literals and matches.
    pub fn new() -> (r: Self)
        ensures
            r.litlens@ == Seq::<LitLen>::empty(),
    {
        Lz77Store { litlens: Vec::new() }
    }

    /// Forget the literals and matches.
    pub fn reset(&mut self)
        ensures
            final(self).litlens@ == Seq::<LitLen>::empty(),
    {
        self.litlens.clear();
    }

    /// How many literals and matches there are.
    pub fn size(&self) -> (r: usize)
        ensures
            r == self.litlens@.len(),
    {
        self.litlens.len()
    }

    /// The literals and matches from `start` to `end`.
    pub fn sub_store(&self, start: usize, end: usize) -> (r: Self)
        requires
            start <= end <= self.litlens@.len(),
        ensures
            r.litlens@ == self.litlens@.subrange(start as int, end as int),
    {
        let mut litlens: Vec<LitLen> = Vec::new();
        let mut k: usize = start;
        while k < end
            invariant
                start <= k <= end <= self.litlens@.len(),
                litlens@ == self.litlens@.subrange(start as int, k as int),
            decreases end - k,
        {
            litlens.push(self.litlens[k]);
            k = k + 1;
        }
        Lz77Store { litlens }
    }

    /// Append the literals and matches of another store.
    pub fn append(&mut self, other: &Lz77Store)
        ensures
            final(self).litlens@ == old(self).litlens@ + other.litlens@,
    {
        let mut k: usize = 0;
        proof {
            assert(self.litlens@ =~= old(self).litlens@ + other.litlens@.take(0));
        }
        while k < other.litlens.len()
            invariant
                k <= other.litlens@.len(),
                self.litlens@ == old(self).litlens@ + other.litlens@.take(k as int),
            decreases other.litlens@.len() - k,
        {
            self.litlens.push(other.litlens[k]);
            k = k + 1;
            proof {
                assert(self.litlens@ =~= old(self).litlens@ + other.litlens@.take(k as int));
            }
        }
        proof {
            assert(other.litlens@.take(k as int) =~= other.litlens@);
        }
    }

    /// Append a literal, where the distance is zero, or a match.
    pub fn lit_len_dist(&mut self, length: u16, dist: u16)
        ensures
            final(self).litlens@ == old(self).litlens@.push(
                if dist == 0 {
                    LitLen::Literal(length)
                } else {
                    LitLen::LengthDist(length, dist)
                },
            ),
    {
        let litlen: LitLen = if dist == 0 {
            LitLen::Literal(length)
        } else {
            LitLen::LengthDist(length, dist)
        };
        self.litlens.push(litlen);
    }

    /// Parse the data from `instart` to `inend` greedily, with a look at the next
    /// position; what comes before it may be matched.
    #[verifier::spinoff_prover]
    #[verifier::rlimit(60)]
    pub fn greedy(&mut self, in_data: &[u8], instart: usize, inend: usize)
        requires
            instart <= inend <= in_data@.len(),
            old(self).litlens@.len() == 0,
        ensures
            stands_for(final(self).litlens@, in_data@, instart as int),
            end_of(final(self).litlens@, instart as int) == inend,
            final(self).litlens@ == greedy_parse(in_data@, instart as int, inend as int),
    {
        let ghost goal = greedy_parse(in_data@, instart as int, inend as int);
        if instart == inend {
            return;
        }
        let windowstart: usize = if instart > WINDOW_SIZE {
            instart - WINDOW_SIZE
        } else {
            0
        };
        let ghost ws = windowstart as int;
        let ghost base = instart as int;
        let mut h: ZopfliHash = ZopfliHash::new();
        let arr: &[u8] = slice_subrange(in_data, 0, inend);
        let ghost a = arr@;
        proof {
            assert(h.knows(a, ws, ws));
        }
        h.warmup(arr, windowstart, Ghost(ws));
        enter_until(&mut h, arr, windowstart, instart, Ghost(ws));
        let mut i: usize = instart;
        let mut prev_length: u16 = 0;
        let mut prev_match: u16 = 0;
        let mut match_available: bool = false;
        proof {
            assert(self.litlens@ =~= Seq::empty());
            assert(a =~= in_data@.subrange(0, inend as int));
        }
        while i < inend
            invariant
                a == arr@,
                a.len() == inend,
                base == instart,
                ws == windowstart,
                ws == 0 || ws + 32768 == instart,
                instart <= i <= inend,
                h.knows(a, ws, i as int),
                stands_for(self.litlens@, a, base),
                prev_length <= 258,
                goal == greedy_from(
                    a,
                    Greedy {
                        i: i as int,
                        chains: h@,
                        ls: self.litlens@,
                        held: if match_available {
                            Some((prev_length, prev_match))
                        } else {
                            None
                        },
                    },
                ),
                !match_available ==> end_of(self.litlens@, base) == i,
                match_available ==> {
                    &&& end_of(self.litlens@, base) == i - 1
                    &&& i > instart
                    &&& 3 <= prev_length
                    &&& search::found(a, i - 1, 258, prev_length as int, prev_match as int)
                },
            decreases inend - i,
        {
            let ghost ls = self.litlens@;
            let ghost g = Greedy {
                i: i as int,
                chains: h@,
                ls,
                held: if match_available {
                    Some((prev_length, prev_match))
                } else {
                    None
                },
            };
            h.update(arr, i, Ghost(ws));
            let ghost c = h@;
            let (leng, dist) = find_longest_match_no_cache(&h, arr, i, MAX_MATCH, Ghost(ws));
            let lengthscore: i32 = get_length_score(leng as i32, dist as i32);
            let prevlengthscore: i32 = get_length_score(prev_length as i32, prev_match as i32);
            let worth: bool = lengthscore >= 3;
            let defer: bool = worth && (leng as usize) < MAX_MATCH;
            let mut settled: bool = false;
            if match_available {
                match_available = false;
                if lengthscore > prevlengthscore + 1 {
                    let lit: u16 = arr[i - 1] as u16;
                    self.lit_len_dist(lit, 0);
                    proof {
                        lemma_push(ls, LitLen::Literal(lit), a, base);
                    }
                } else {
                    self.lit_len_dist(prev_length, prev_match);
                    proof {
                        lemma_push(ls, LitLen::LengthDist(prev_length, prev_match), a, base);
                    }
                    let next: usize = i - 1 + prev_length as usize;
                    enter_until(&mut h, arr, i + 1, next, Ghost(ws));
                    i = next;
                    settled = true;
                }
            }
            if !settled {
                let ghost l1 = self.litlens@;
                if defer {
                    match_available = true;
                    prev_length = leng;
                    prev_match = dist;
                    i = i + 1;
                } else if worth {
                    self.lit_len_dist(leng, dist);
                    proof {
                        lemma_push(l1, LitLen::LengthDist(leng, dist), a, base);
                    }
                    let next: usize = i + leng as usize;
                    enter_until(&mut h, arr, i + 1, next, Ghost(ws));
                    i = next;
                } else {
                    let lit: u16 = arr[i] as u16;
                    self.lit_len_dist(lit, 0);
                    proof {
                        lemma_push(l1, LitLen::Literal(lit), a, base);
                    }
                    i = i + 1;
                }
            }
            proof {
                let n = g.step(a);
                let now = Greedy {
                    i: i as int,
                    chains: h@,
                    ls: self.litlens@,
                    held: if match_available {
                        Some((prev_length, prev_match))
                    } else {
                        None
                    },
                };
                assert(n =~= now);
            }
        }
        proof {
            lemma_more(self.litlens@, in_data@, base, inend as int);
        }
    }

    /// Take over the literals and matches of a path, which runs backwards.
    pub fn store_from_path(
        &mut self,
        in_data: &[u8],
        instart: usize,
        path: &[(u16, u16)],
    )
        requires
            instart <= in_data@.len(),
            old(self).litlens@.len() == 0,
            items::parse_ok(in_data@, instart as int, path_items(path@)),
        ensures
            stands_for(final(self).litlens@, in_data@, instart as int),
            items_of(final(self).litlens@) == path_items(path@),
    {
        let ghost a = in_data@;
        let ghost its = path_items(path@);
        let ghost b = instart as int;
        let size: usize = in_data.len();
        let mut pos: usize = instart;
        let mut k: usize = path.len();
        proof {
            assert(items_of(self.litlens@) =~= its.take(0));
            items::lemma_parse_len(a, instart as int, its);
        }
        while k > 0
            invariant
                k <= path@.len(),
                a == in_data@,
                size == a.len(),
                its == path_items(path@),
                items::parse_ok(a, instart as int, its),
                instart <= a.len(),
                stands_for(self.litlens@, a, b),
                end_of(self.litlens@, b) == pos,
                pos == items::end_of(instart as int, its.take(path@.len() - k)),
                b == instart,
                items_of(self.litlens@) == its.take(path@.len() - k),
                pos <= a.len(),
            decreases k,
        {
            k = k - 1;
            let (length, dist) = path[k];
            let ghost j = path@.len() - k - 1;
            let ghost ls = self.litlens@;
            proof {
                lemma_parse_at(a, instart as int, its, j);
                assert(its[j] == (length as int, dist as int));
                assert(its.take(j + 1) =~= its.take(j).push(its[j]));
                assert(its.take(j + 1).drop_last() =~= its.take(j));
            }
            if length >= MIN_MATCH as u16 {
                self.lit_len_dist(length, dist);
                proof {
                    lemma_push(ls, LitLen::LengthDist(length, dist), a, b);
                }
            } else {
                let lit: u16 = in_data[pos] as u16;
                self.lit_len_dist(lit, 0);
                proof {
                    lemma_push(ls, LitLen::Literal(lit), a, b);
                }
            }
            pos = pos + length as usize;
            proof {
                assert(items_of(self.litlens@) =~= its.take(j + 1));
            }
        }
        proof {
            assert(its.take(path@.len() as int) =~= its);
        }
    }
}

/// The items of a path, which runs backwards.
pub open spec fn path_items(path: Seq<(u16, u16)>) -> Seq<(int, int)> {
    Seq::new(
        path.len(),
        |k: int| (path[path.len() - 1 - k].0 as int, path[path.len() - 1 - k].1 as int),
    )
}

/// An item of a parse.
pub proof fn lemma_parse_at(h: Seq<u8>, base: int, its: Seq<(int, int)>, k: int)
    requires
        items::parse_ok(h, base, its),
        0 <= k < its.len(),
    ensures
        items::parse_ok(h, base, its.take(k)),
        items::item_ok(h, items::end_of(base, its.take(k)), its[k]),
    decreases its.len(),
{
    if k == its.len() - 1 {
        assert(its.take(k) =~= its.drop_last());
    } else {
        lemma_parse_at(h, base, its.drop_last(), k);
        assert(its.drop_last().take(k) =~= its.take(k));
    }
}

/// The path that the arrays hold for the first `index` bytes, from its end on.
pub open spec fn path_of(lens: Seq<u16>, dists: Seq<u16>, index: int) -> Seq<(u16, u16)>
    decreases index,
{
    if index <= 0 || lens[index] == 0 || lens[index] > index {
        Seq::empty()
    } else {
        seq![(lens[index], dists[index])] + path_of(lens, dists, index - lens[index])
    }
}

/// Each way in the arrays ends where another one does, or at the start.
pub open spec fn steps_back(lens: Seq<u16>, size: int) -> bool {
    forall|k: int| 1 <= k <= size ==> 1 <= #[trigger] lens[k] <= k
}

/// Follow the best way back from the end of the block.
pub fn trace(size: usize, length_array: &[u16], dist_array: &[u16], path: &mut Vec<(u16, u16)>)
    requires
        size < length_array@.len(),
        size < dist_array@.len(),
        steps_back(length_array@, size as int),
    ensures
        final(path)@ == path_of(length_array@, dist_array@, size as int),
{
    path.clear();
    let mut index: usize = size;
    proof {
        assert(path@ + path_of(length_array@, dist_array@, size as int) =~= path_of(
            length_array@,
            dist_array@,
            size as int,
        ));
    }
    while index > 0
        invariant
            index <= size,
            size < length_array@.len(),
            size < dist_array@.len(),
            steps_back(length_array@, size as int),
            path@ + path_of(length_array@, dist_array@, index as int) == path_of(
                length_array@,
                dist_array@,
                size as int,
            ),
        decreases index,
    {
        let lai: u16 = length_array[index];
        let dai: u16 = dist_array[index];
        let ghost p0 = path@;
        assert(1 <= length_array@[index as int] <= index);
        path.push((lai, dai));
        proof {
            let rest = path_of(length_array@, dist_array@, index - lai);
            assert(path@ + rest =~= p0 + (seq![(lai, dai)] + rest));
        }
        index = index - lai as usize;
    }
    proof {
        assert(path@ + path_of(length_array@, dist_array@, 0) =~= path@);
    }
}

/// Where each way in the arrays is a literal or a match that may end there, the path that
/// they hold stands for the data.
pub proof fn law_trace_parses(
    lens: Seq<u16>,
    dists: Seq<u16>,
    size: int,
    h: Seq<u8>,
    base: int,
)
    requires
        0 <= size,
        steps_back(lens, size),
        forall|k: int|
            1 <= k <= size ==> items::item_ok(
                h,
                base + k - #[trigger] lens[k],
                (lens[k] as int, dists[k] as int),
            ),
    ensures
        items::parse_ok(h, base, path_items(path_of(lens, dists, size))),
        items::end_of(base, path_items(path_of(lens, dists, size))) == base + size,
    decreases size,
{
    let path = path_of(lens, dists, size);
    if size == 0 {
        assert(path_items(path) =~= Seq::empty());
    } else {
        assert(1 <= lens[size] <= size);
        let rest = path_of(lens, dists, size - lens[size]);
        law_trace_parses(lens, dists, size - lens[size], h, base);
        assert(path.len() == rest.len() + 1);
        assert forall|k: int| 0 <= k < rest.len() implies #[trigger] path_items(path)[k] == path_items(
            rest,
        )[k] by {
            assert(path[path.len() - 1 - k] == rest[rest.len() - 1 - k]);
        }
        assert(path_items(path).drop_last() =~= path_items(rest));
        assert(path_items(path).last() == (lens[size] as int, dists[size] as int));
    }
}

/// Whether a path stands for the data from `instart` to `inend`.
pub fn path_fits(in_data: &[u8], instart: usize, inend: usize, path: &[(u16, u16)]) -> (r: bool)
    requires
        instart <= inend <= in_data@.len(),
    ensures
        r == (items::parse_ok(in_data@, instart as int, path_items(path@)) && items::end_of(
            instart as int,
            path_items(path@),
        ) == inend),
{
    let ghost a = in_data@;
    let ghost its = path_items(path@);
    let size: usize = in_data.len();
    let mut pos: usize = instart;
    let mut k: usize = path.len();
    while k > 0
        invariant
            k <= path@.len(),
            a == in_data@,
            size == a.len(),
            its == path_items(path@),
            instart <= pos <= size,
            items::parse_ok(a, instart as int, its.take(path@.len() - k)),
            pos == items::end_of(instart as int, its.take(path@.len() - k)),
        decreases k,
    {
        k = k - 1;
        let (length, dist) = path[k];
        let ghost j = path@.len() - k - 1;
        proof {
            assert(its[j] == (length as int, dist as int));
            assert(its.take(j + 1) =~= its.take(j).push(its[j]));
            assert(its.take(j + 1).drop_last() =~= its.take(j));
        }
        if !item_fits(in_data, pos, length, dist) {
            proof {
                if items::parse_ok(a, instart as int, its) {
                    lemma_parse_at(a, instart as int, its, j);
                }
            }
            return false;
        }
        pos = pos + length as usize;
    }
    proof {
        assert(its.take(path@.len() as int) =~= its);
    }
    pos == inend
}

/// Whether a literal or a match may stand at a position.
fn item_fits(in_data: &[u8], pos: usize, length: u16, dist: u16) -> (r: bool)
    requires
        pos <= in_data@.len(),
    ensures
        r == items::item_ok(in_data@, pos as int, (length as int, dist as int)),
        r ==> pos + length <= in_data@.len(),
{
    let size: usize = in_data.len();
    if dist == 0 {
        return length == 1 && pos < size;
    }
    if length < 3 || length > 258 || dist > 32768 || dist as usize > pos || length as usize > size - pos {
        return false;
    }
    let matched: usize = search::get_match(in_data, pos, pos - dist as usize, pos + length as usize);
    proof {
        let a = in_data@;
        if matched == length {
            assert forall|i: int| pos <= i < pos + length implies #[trigger] a[i] == a[i - dist] by {
                let k = i - pos;
                assert(a[pos + k] == a[pos - dist + k]);
            }
        } else {
            let i = pos + matched;
            assert(a[pos + matched] != a[pos - dist + matched]);
            assert(a[i] != a[i - dist]);
        }
    }
    matched == length as usize
}

/// The counters of a path, with the end-of-block symbol.
pub fn compute_frequencies_from_path(
    in_data: &[u8],
    instart: usize,
    path: &[(u16, u16)],
) -> (freqs: DeflateFreqs)
    requires
        instart <= in_data@.len(),
        path@.len() < 0xffff_ffff,
        items::parse_ok(in_data@, instart as int, path_items(path@)),
    ensures
        freqs.counts(in_data@, instart as int, path_items(path@), 1),
{
    let ghost a = in_data@;
    let ghost its = path_items(path@);
    let ghost b = instart as int;
    let size: usize = in_data.len();
    let mut freqs: DeflateFreqs = DeflateFreqs::default();
    let mut pos: usize = instart;
    let mut k: usize = path.len();
    while k > 0
        invariant
            k <= path@.len(),
            path@.len() < 0xffff_ffff,
            a == in_data@,
            size == a.len(),
            b == instart,
            its == path_items(path@),
            items::parse_ok(a, b, its),
            instart <= pos <= a.len(),
            pos == items::end_of(b, its.take(path@.len() - k)),
            freqs.counts(a, b, its.take(path@.len() - k), 0),
        decreases k,
    {
        k = k - 1;
        let (length, dist) = path[k];
        let ghost j = path@.len() - k - 1;
        proof {
            lemma_parse_at(a, b, its, j);
            assert(its[j] == (length as int, dist as int));
            items::lemma_counts_step(a, b, its, j);
            items::lemma_parse_len(a, b, its.take(j));
        }
        count_item(&mut freqs, in_data, pos, length, dist, Ghost(b), Ghost(its.take(j)));
        proof {
            assert(its.take(j).push(its[j]) =~= its.take(j + 1));
        }
        pos = pos + length as usize;
    }
    proof {
        assert(its.take(path@.len() as int) =~= its);
        items::lemma_parse_len(a, b, its);
        items::lemma_counts_range(a, b, its);
        assert(items::litlen_count(a, b, its, 256) == 0);
        assert(freqs.litlen@[256] == 0);
    }
    let ghost f1 = freqs;
    freqs.litlen[256] = freqs.litlen[256] + 1;
    proof {
        assert forall|s: int| 0 <= s < 288 implies #[trigger] freqs.litlen@[s] == items::litlen_count(
            a,
            b,
            its,
            s,
        ) + if s == 256 {
            1int
        } else {
            0
        } by {
            assert(f1.litlen@[s] == items::litlen_count(a, b, its, s));
        }
        assert forall|s: int| 0 <= s < 32 implies #[trigger] freqs.offset@[s] == items::offset_count(
            its,
            s,
        ) by {
            assert(f1.offset@[s] == items::offset_count(its, s));
        }
    }
    freqs
}

/// Count one more literal or match.
fn count_item(
    freqs: &mut DeflateFreqs,
    in_data: &[u8],
    pos: usize,
    length: u16,
    dist: u16,
    base: Ghost<int>,
    its: Ghost<Seq<(int, int)>>,
)
    requires
        old(freqs).counts(in_data@, base@, its@, 0),
        0 <= base@ <= in_data@.len(),
        items::parse_ok(in_data@, base@, its@),
        pos == items::end_of(base@, its@),
        items::item_ok(in_data@, pos as int, (length as int, dist as int)),
        its@.len() < 0xffff_ffff,
    ensures
        final(freqs).counts(in_data@, base@, its@.push((length as int, dist as int)), 0),
{
    let ghost a = in_data@;
    let ghost b = base@;
    let ghost f0 = *freqs;
    let ghost it = (length as int, dist as int);
    let ghost all = its@.push(it);
    proof {
        items::lemma_parse_len(a, b, its@);
        items::lemma_slots(length as int, dist as int);
        assert(all.drop_last() =~= its@);
        assert forall|s: int| 0 <= s < 288 implies #[trigger] f0.litlen@[s] <= its@.len() by {
            assert(items::litlen_count(a, b, its@, s) <= its@.len());
        }
        assert forall|s: int| 0 <= s < 32 implies #[trigger] f0.offset@[s] <= its@.len() by {
            assert(items::offset_count(its@, s) <= its@.len());
        }
    }
    if length >= MIN_MATCH as u16 {
        let ls: usize = 257 + get_length_slot(length as u32) as usize;
        let os: usize = get_offset_slot(dist as u32) as usize;
        freqs.litlen[ls] = freqs.litlen[ls] + 1;
        freqs.offset[os] = freqs.offset[os] + 1;
    } else {
        let lit: usize = in_data[pos] as usize;
        freqs.litlen[lit] = freqs.litlen[lit] + 1;
    }
    proof {
        assert forall|s: int| 0 <= s < 288 implies #[trigger] freqs.litlen@[s] == items::litlen_count(
            a,
            b,
            all,
            s,
        ) + if s == 256 {
            0int
        } else {
            0
        } by {
            assert(f0.litlen@[s] == items::litlen_count(a, b, its@, s));
        }
        assert forall|s: int| 0 <= s < 32 implies #[trigger] freqs.offset@[s] == items::offset_count(
            all,
            s,
        ) by {
            assert(f0.offset@[s] == items::offset_count(its@, s));
        }
    }
}

} // verus!
