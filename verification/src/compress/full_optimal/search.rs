//! Searching the chains for matches.

use crate::arith::min_usize;
use crate::compress::full_optimal::chain::{
    Chains, WhichHash, ZopfliHash, HASH_NONE, MAX_CHAIN_HITS, MIN_MATCH, WINDOW_SIZE,
};
use crate::compress::items;
use vstd::prelude::*;

verus! {

/// How many bytes at `so` and at `mo` are equal, up to `end`.
pub fn get_match(array: &[u8], so: usize, mo: usize, end: usize) -> (r: usize)
    requires
        mo <= so <= end <= array@.len(),
    ensures
        r <= end - so,
        forall|k: int| 0 <= k < r ==> #[trigger] array@[so + k] == array@[mo + k],
        r < end - so ==> array@[so + r] != array@[mo + r],
{
    let mut i: usize = 0;
    while i < end - so && array[so + i] == array[mo + i]
        invariant
            mo <= so <= end <= array@.len(),
            i <= end - so,
            forall|k: int| 0 <= k < i ==> #[trigger] array@[so + k] == array@[mo + k],
        decreases end - so - i,
    {
        i = i + 1;
    }
    i
}

/// What a search may find at a position: no match, or one of at most `limit` bytes whose
/// distance is in the window.
pub open spec fn found(a: Seq<u8>, pos: int, limit: int, len: int, dist: int) -> bool {
    ||| dist == 0 && len <= 1
    ||| 2 <= len <= limit && dist < 32768 && items::is_match(a, pos, len, dist)
}

/// Each length up to `len` has a match at its distance in the table.
pub open spec fn sublens_ok(a: Seq<u8>, pos: int, sublen: Seq<u16>, from: int, len: int) -> bool {
    &&& sublen.len() >= 259
    &&& forall|k: int|
        from <= k <= len ==> items::is_match(a, pos, k, (#[trigger] sublen[k]) as int) && sublen[k]
            < 32768
}

/// A start of a match is a match.
pub proof fn lemma_shorter(a: Seq<u8>, pos: int, len: int, dist: int, k: int)
    requires
        items::is_match(a, pos, len, dist),
        0 <= k <= len,
    ensures
        items::is_match(a, pos, k, dist),
{
}

/// How many bytes at `pos` equal those `dist` back, given that `k` of them do; at most
/// `limit`.
pub open spec fn equal_from(a: Seq<u8>, pos: int, dist: int, k: int, limit: int) -> int
    decreases limit - k,
{
    if k >= limit || a[pos + k] != a[pos + k - dist] {
        k
    } else {
        equal_from(a, pos, dist, k + 1, limit)
    }
}

/// A match that cannot be extended has the length of the equal bytes.
proof fn lemma_equal_from(a: Seq<u8>, pos: int, dist: int, k: int, limit: int, r: int)
    requires
        0 <= k <= r <= limit,
        forall|i: int| pos <= i < pos + r ==> #[trigger] a[i] == a[i - dist],
        r < limit ==> a[pos + r] != a[pos + r - dist],
    ensures
        equal_from(a, pos, dist, k, limit) == r,
    decreases limit - k,
{
    if k < r {
        assert(a[pos + k] == a[pos + k - dist]);
        lemma_equal_from(a, pos, dist, k + 1, limit, r);
    }
}

/// Where the bytes differ, the equal bytes end.
proof fn lemma_equal_bound(a: Seq<u8>, pos: int, dist: int, k: int, limit: int, n: int)
    requires
        k <= n < limit,
    ensures
        a[pos + n] != a[pos + n - dist] ==> equal_from(a, pos, dist, k, limit) <= n,
    decreases limit - k,
{
    if k < n && a[pos + k] == a[pos + k - dist] {
        lemma_equal_bound(a, pos, dist, k + 1, limit, n);
    }
}

/// The state of a search: the chain that is followed and the place in it, its distance,
/// how many places may still be looked at, and the longest match so far with the nearest
/// distance for each length.
#[verifier::ext_equal]
pub struct Hunt {
    pub second: bool,
    pub p: int,
    pub dist: int,
    pub left: int,
    pub len: int,
    pub best: int,
    pub sublen: Seq<u16>,
}

/// How far back a place lies from another one, around the window.
pub open spec fn back(from: int, to: int) -> int {
    if to < from {
        from - to
    } else {
        32768 - to + from
    }
}

/// The lengths from behind `from` up to `to` at a distance.
pub open spec fn lengthened(sublen: Seq<u16>, from: int, to: int, dist: int) -> Seq<u16> {
    Seq::new(
        sublen.len(),
        |k: int|
            if from < k <= to {
                dist as u16
            } else {
                sublen[k]
            },
    )
}

impl Hunt {
    /// The match at the place taken, if it is longer than those before it.
    pub open spec fn tried(self, a: Seq<u8>, pos: int, limit: int) -> Self {
        let n = equal_from(a, pos, self.dist, 0, limit);
        if n > self.len {
            Hunt {
                len: n,
                best: self.dist,
                sublen: lengthened(self.sublen, self.len, n, self.dist),
                ..self
            }
        } else {
            self
        }
    }

    /// Whether the chain of the second hash is followed from here on: as soon as the match
    /// is as long as the run of equal bytes and the place has the same second hash.
    pub open spec fn switches(self, c: Chains, pos: int) -> bool {
        self.second || (self.len >= c.same[pos % 32768] && c.two.hashval[self.p] != HASH_NONE
            && c.two.val == c.two.hashval[self.p])
    }
}

/// The end of a search: the places of the chains are tried one after the other until the
/// match is as long as it may be, the window or the chain ends, or enough were tried.
pub open spec fn hunt(c: Chains, a: Seq<u8>, pos: int, limit: int, s: Hunt) -> Hunt
    decreases s.left,
{
    if s.dist >= 32768 || s.left <= 0 || s.len >= limit {
        s
    } else {
        let t = s.tried(a, pos, limit);
        if t.len >= limit {
            t
        } else {
            let second = t.switches(c, pos);
            let q = if second {
                c.two.prev[t.p] as int
            } else {
                c.one.prev[t.p] as int
            };
            if q == t.p {
                t
            } else {
                hunt(
                    c,
                    a,
                    pos,
                    limit,
                    Hunt {
                        second,
                        p: q,
                        dist: t.dist + back(t.p, q),
                        left: t.left - 1,
                        len: t.len,
                        best: t.best,
                        sublen: t.sublen,
                    },
                )
            }
        }
    }
}

/// A search from a position.
pub open spec fn hunted(c: Chains, a: Seq<u8>, pos: int, limit: int, sublen: Seq<u16>) -> Hunt {
    let p = c.one.prev[pos % 32768] as int;
    hunt(
        c,
        a,
        pos,
        limit,
        Hunt {
            second: false,
            p,
            dist: back(pos % 32768, p),
            left: MAX_CHAIN_HITS as int,
            len: 1,
            best: 0,
            sublen,
        },
    )
}

/// The length and the distance of the longest match at a position; none where fewer than
/// three bytes are left.
pub open spec fn longest(c: Chains, a: Seq<u8>, pos: int, limit: int) -> (int, int) {
    let left = a.len() - pos;
    if left < 3 {
        (0, 0)
    } else {
        let s = hunted(
            c,
            a,
            pos,
            if limit < left {
                limit
            } else {
                left
            },
            Seq::new(259, |k: int| 0u16),
        );
        (s.len, s.best)
    }
}

/// The length of the match with the bytes `dist` back; runs of equal bytes are skipped.
fn match_at(
    h: &ZopfliHash,
    array: &[u8],
    pos: usize,
    limit: usize,
    dist: usize,
    start: Ghost<int>,
) -> (r: usize)
    requires
        h.knows(array@, start@, pos + 1),
        0 < dist <= pos,
        dist < 32768,
        start@ <= pos - dist,
        limit <= 258,
        pos + limit <= array@.len(),
    ensures
        r <= limit,
        items::is_match(array@, pos as int, r as int, dist as int),
        r == equal_from(array@, pos as int, dist as int, 0, limit as int),
{
    let ghost a = array@;
    let same0: u16 = h.same[pos % WINDOW_SIZE];
    let mut so: usize = pos;
    let mut mo: usize = pos - dist;
    if same0 > 2 && array[so] == array[mo] {
        let same1: u16 = h.same[(pos - dist) % WINDOW_SIZE];
        let mut same: usize = min_usize(same0 as usize, same1 as usize);
        same = min_usize(same, limit);
        proof {
            assert(h.same@[(pos as int) % 32768] == crate::compress::full_optimal::chain::run_of(a, pos as int));
            assert(h.same@[(pos - dist) % 32768] == crate::compress::full_optimal::chain::run_of(a, pos - dist));
            crate::compress::full_optimal::chain::lemma_run(a, pos as int, 0);
            crate::compress::full_optimal::chain::lemma_run(a, pos - dist, 0);
            assert forall|i: int| pos <= i < pos + same implies #[trigger] a[i] == a[i - dist] by {
                assert(a[i] == a[pos as int]);
                assert(a[i - dist] == a[pos - dist]);
            }
        }
        so = so + same;
        mo = mo + same;
    }
    let ghost skipped = so - pos;
    let matched: usize = get_match(array, so, mo, pos + limit);
    proof {
        assert forall|i: int| pos <= i < pos + skipped + matched implies #[trigger] a[i] == a[i - dist] by {
            if i >= so {
                let k = i - so;
                assert(a[so + k] == a[mo + k]);
            }
        }
        if skipped + matched < limit {
            assert(a[so + matched] != a[mo + matched]);
        }
        lemma_equal_from(a, pos as int, dist as int, 0, limit as int, skipped + matched);
    }
    so - pos + matched
}

/// Follow the chains from a position for the longest match; the table gets for each
/// length the nearest distance that was seen.
#[verifier::spinoff_prover]
#[verifier::rlimit(60)]
pub fn find_longest_match_loop(
    h: &ZopfliHash,
    array: &[u8],
    pos: usize,
    limit: usize,
    sublen: &mut Vec<u16>,
    start: Ghost<int>,
) -> (r: (u16, u16))
    requires
        h.knows(array@, start@, pos + 1),
        start@ == 0 || start@ + 32768 <= pos,
        1 <= limit <= 258,
        pos + limit <= array@.len(),
        old(sublen)@.len() >= 259,
    ensures
        ({
            let e = hunted(h@, array@, pos as int, limit as int, old(sublen)@);
            r.0 == e.len && r.1 == e.best && final(sublen)@ == e.sublen
        }),
        r.0 >= 1,
        found(array@, pos as int, limit as int, r.0 as int, r.1 as int),
        sublens_ok(array@, pos as int, final(sublen)@, 2, r.0 as int),
        final(sublen)@.len() == old(sublen)@.len(),
        r.0 >= 2 ==> final(sublen)@[r.0 as int] == r.1,
        forall|k: int|
            0 <= k < old(sublen)@.len() && (k < 2 || k > r.0) ==> #[trigger] final(sublen)@[k] == old(
                sublen,
            )@[k],
{
    let ghost a = array@;
    let size: usize = array.len();
    let mut which_hash: WhichHash = WhichHash::Hash1;
    let hpos: usize = pos % WINDOW_SIZE;
    let mut pp: usize = hpos;
    let mut p: usize = h.prev_at(pp, which_hash);
    let mut dist: usize = if p < pp {
        pp - p
    } else {
        WINDOW_SIZE - p + pp
    };
    let mut bestlength: usize = 1;
    let mut bestdist: usize = 0;
    let mut chain_counter: usize = MAX_CHAIN_HITS;
    let ghost end = hunted(h@, a, pos as int, limit as int, old(sublen)@);
    while dist < WINDOW_SIZE && chain_counter > 0
        invariant_except_break
            end == hunt(
                h@,
                a,
                pos as int,
                limit as int,
                Hunt {
                    second: which_hash == WhichHash::Hash2,
                    p: p as int,
                    dist: dist as int,
                    left: chain_counter as int,
                    len: bestlength as int,
                    best: bestdist as int,
                    sublen: sublen@,
                },
            ),
        invariant
            a == array@,
            size == a.len(),
            h.knows(a, start@, pos + 1),
            start@ == 0 || start@ + 32768 <= pos,
            1 <= limit <= 258,
            pos + limit <= size,
            hpos == pos % 32768,
            p < 32768,
            0 < dist <= 65536,
            dist < 32768 ==> dist <= pos,
            pos < 32768 && dist < 32768 ==> p == pos - dist,
            1 <= bestlength <= limit,
            bestdist < 32768,
            found(a, pos as int, limit as int, bestlength as int, bestdist as int),
            sublens_ok(a, pos as int, sublen@, 2, bestlength as int),
            sublen@.len() == old(sublen)@.len(),
            bestlength >= 2 ==> sublen@[bestlength as int] == bestdist,
            forall|k: int|
                0 <= k < sublen@.len() && (k < 2 || k > bestlength) ==> #[trigger] sublen@[k] == old(
                    sublen,
                )@[k],
        ensures
            end.len == bestlength,
            end.best == bestdist,
            end.sublen == sublen@,
        decreases chain_counter,
    {
        let ghost st = Hunt {
            second: which_hash == WhichHash::Hash2,
            p: p as int,
            dist: dist as int,
            left: chain_counter as int,
            len: bestlength as int,
            best: bestdist as int,
            sublen: sublen@,
        };
        let ghost tr = st.tried(a, pos as int, limit as int);
        if bestlength >= limit {
            break;
        }
        proof {
            lemma_equal_bound(a, pos as int, dist as int, 0, limit as int, bestlength as int);
        }
        if array[pos + bestlength] == array[pos - dist + bestlength] {
            let currentlength: usize = match_at(h, array, pos, limit, dist, start);
            if currentlength > bestlength {
                let mut k: usize = bestlength + 1;
                let ghost s0 = sublen@;
                while k <= currentlength
                    invariant
                        bestlength < k <= currentlength + 1,
                        1 <= bestlength,
                        currentlength <= limit <= 258,
                        s0.len() >= 259,
                        sublen@.len() == s0.len(),
                        dist < 32768,
                        forall|j: int| bestlength < j < k ==> #[trigger] sublen@[j] == dist,
                        forall|j: int|
                            0 <= j < s0.len() && (j <= bestlength || j >= k) ==> #[trigger] sublen@[j]
                                == s0[j],
                    decreases currentlength + 1 - k,
                {
                    sublen.set(k, dist as u16);
                    k = k + 1;
                }
                proof {
                    assert forall|j: int| 2 <= j <= currentlength implies items::is_match(
                        a,
                        pos as int,
                        j,
                        (#[trigger] sublen@[j]) as int,
                    ) && sublen@[j] < 32768 by {
                        if j <= bestlength {
                            assert(sublen@[j] == s0[j]);
                        } else {
                            lemma_shorter(a, pos as int, currentlength as int, dist as int, j);
                        }
                    }
                }
                bestdist = dist;
                bestlength = currentlength;
            }
        }
        proof {
            assert(sublen@ =~= tr.sublen);
            assert(tr.len == bestlength && tr.best == bestdist);
        }
        if bestlength >= limit {
            break;
        }
        if which_hash == WhichHash::Hash1 && bestlength >= h.same[hpos] as usize && h.hash2_is(p) {
            which_hash = WhichHash::Hash2;
        }
        pp = p;
        p = h.prev_at(p, which_hash);
        if p == pp {
            break;
        }
        dist = dist + if p < pp {
            pp - p
        } else {
            WINDOW_SIZE - p + pp
        };
        chain_counter = chain_counter - 1;
    }
    (bestlength as u16, bestdist as u16)
}

/// The longest match at a position, without a cache; none where fewer than three bytes
/// are left.
pub fn find_longest_match_no_cache(
    h: &ZopfliHash,
    array: &[u8],
    pos: usize,
    limit: usize,
    start: Ghost<int>,
) -> (r: (u16, u16))
    requires
        h.knows(array@, start@, pos + 1),
        start@ == 0 || start@ + 32768 <= pos,
        pos < array@.len(),
        1 <= limit <= 258,
    ensures
        (r.0 as int, r.1 as int) == longest(h@, array@, pos as int, limit as int),
        found(array@, pos as int, limit as int, r.0 as int, r.1 as int),
        pos + r.0 <= array@.len(),
        array@.len() - pos < 3 ==> r == (0u16, 0u16),
        array@.len() - pos >= 3 ==> r.0 >= 1,
{
    let size: usize = array.len();
    if size - pos < MIN_MATCH {
        return (0, 0);
    }
    let limit: usize = min_usize(limit, size - pos);
    let mut sublen: Vec<u16> = vec![0u16; 259];
    assert(sublen@ =~= Seq::new(259, |k: int| 0u16));
    find_longest_match_loop(h, array, pos, limit, &mut sublen, start)
}

/// What a match is worth: far ones count one byte less.
pub fn get_length_score(length: i32, distance: i32) -> (r: i32)
    requires
        length > i32::MIN,
    ensures
        r == if distance > 1024 {
            length - 1
        } else {
            length as int
        },
{
    if distance > 1024 {
        length - 1
    } else {
        length
    }
}

/// Bytes that are equal count.
proof fn lemma_equal_least(a: Seq<u8>, pos: int, dist: int, k: int, limit: int, len: int)
    requires
        0 <= k <= len <= limit,
        forall|i: int| pos + k <= i < pos + len ==> #[trigger] a[i] == a[i - dist],
    ensures
        equal_from(a, pos, dist, k, limit) >= len,
    decreases limit - k,
{
    if k < len {
        assert(a[pos + k] == a[pos + k - dist]);
        lemma_equal_least(a, pos, dist, k + 1, limit, len);
    } else {
        lemma_equal_grows(a, pos, dist, k, limit);
    }
}

/// Equal bytes are only added.
proof fn lemma_equal_grows(a: Seq<u8>, pos: int, dist: int, k: int, limit: int)
    requires
        k <= limit,
    ensures
        equal_from(a, pos, dist, k, limit) >= k,
    decreases limit - k,
{
    if k < limit && a[pos + k] == a[pos + k - dist] {
        lemma_equal_grows(a, pos, dist, k + 1, limit);
    }
}

/// A search never loses what it has.
pub proof fn law_hunt_grows(c: Chains, a: Seq<u8>, pos: int, limit: int, s: Hunt)
    ensures
        hunt(c, a, pos, limit, s).len >= s.len,
    decreases s.left,
{
    if s.dist < 32768 && s.left > 0 && s.len < limit {
        let t = s.tried(a, pos, limit);
        if t.len < limit {
            let second = t.switches(c, pos);
            let q = if second {
                c.two.prev[t.p] as int
            } else {
                c.one.prev[t.p] as int
            };
            if q != t.p {
                law_hunt_grows(
                    c,
                    a,
                    pos,
                    limit,
                    Hunt {
                        second,
                        p: q,
                        dist: t.dist + back(t.p, q),
                        left: t.left - 1,
                        len: t.len,
                        best: t.best,
                        sublen: t.sublen,
                    },
                );
            }
        }
    }
}

/// A search finds a match that is at least as long as the one with the place that it tries
/// next, wherever it has got to.
pub proof fn law_hunt_tries(c: Chains, a: Seq<u8>, pos: int, limit: int, s: Hunt, len: int)
    requires
        s.dist < 32768,
        s.left > 0,
        0 <= len <= limit,
        items::is_match(a, pos, len, s.dist),
    ensures
        hunt(c, a, pos, limit, s).len >= len,
{
    if s.len < limit {
        lemma_equal_least(a, pos, s.dist, 0, limit, len);
        let t = s.tried(a, pos, limit);
        assert(t.len >= len);
        if t.len < limit {
            let second = t.switches(c, pos);
            let q = if second {
                c.two.prev[t.p] as int
            } else {
                c.one.prev[t.p] as int
            };
            if q != t.p {
                law_hunt_grows(
                    c,
                    a,
                    pos,
                    limit,
                    Hunt {
                        second,
                        p: q,
                        dist: t.dist + back(t.p, q),
                        left: t.left - 1,
                        len: t.len,
                        best: t.best,
                        sublen: t.sublen,
                    },
                );
            }
        }
    }
}

/// A search finds a match that is at least as long as the one with the nearest place on the
/// chain of its position, if that lies in the window.
pub proof fn law_nearest_is_found(c: Chains, a: Seq<u8>, pos: int, limit: int, len: int)
    requires
        0 <= pos,
        pos + 3 <= a.len(),
        3 <= limit,
        0 <= len <= limit,
        pos + len <= a.len(),
        back(pos % 32768, c.one.prev[pos % 32768] as int) < 32768,
        items::is_match(a, pos, len, back(pos % 32768, c.one.prev[pos % 32768] as int)),
    ensures
        longest(c, a, pos, limit).0 >= len,
{
    let p = c.one.prev[pos % 32768] as int;
    let left = a.len() - pos;
    law_hunt_tries(
        c,
        a,
        pos,
        if limit < left {
            limit
        } else {
            left
        },
        Hunt {
            second: false,
            p,
            dist: back(pos % 32768, p),
            left: MAX_CHAIN_HITS as int,
            len: 1,
            best: 0,
            sublen: Seq::new(259, |k: int| 0u16),
        },
        len,
    );
}

} // verus!
