//! What the chains remember, and what a search makes of them.

use crate::compress::full_optimal::chain::{hash_step, Chains, Links, HASH_NONE};
use crate::compress::full_optimal::search;
use crate::compress::full_optimal::search::Hunt;
use crate::compress::full_optimal::store::{Greedy, LitLen};
use crate::compress::items;
use vstd::prelude::*;

verus! {

/// The byte at a position, or zero behind the data.
pub open spec fn byte_at(a: Seq<u8>, p: int) -> u8 {
    if p < a.len() {
        a[p]
    } else {
        0
    }
}

/// The hash of the three bytes at a position.
pub open spec fn hash3(a: Seq<u8>, p: int) -> u16 {
    hash_step(hash_step(hash_step(0, byte_at(a, p)), byte_at(a, p + 1)), byte_at(a, p + 2))
}

/// A hash forgets all but the last three bytes.
proof fn lemma_forgets(v: u16, x: u8, y: u8, z: u8)
    ensures
        hash_step(hash_step(hash_step(v, x), y), z) == hash_step(hash_step(hash_step(0, x), y), z),
        hash_step(v, x) < 32768,
{
    assert(((((((((v << 5u16) ^ (x as u16)) & 32767u16) << 5u16) ^ (y as u16)) & 32767u16) << 5u16) ^ (
    z as u16)) & 32767u16 == ((((((((0u16 << 5u16) ^ (x as u16)) & 32767u16) << 5u16) ^ (y as u16))
        & 32767u16) << 5u16) ^ (z as u16)) & 32767u16) by (bit_vector);
    assert(((v << 5u16) ^ (x as u16)) & 32767u16 < 32768u16) by (bit_vector);
}

/// The latest of the positions from `from` to `next` with a hash, or -1.
pub open spec fn latest(a: Seq<u8>, from: int, next: int, v: u16) -> int
    decreases next - from,
{
    if next <= from {
        -1
    } else if hash3(a, next - 1) == v {
        next - 1
    } else {
        latest(a, from, next - 1, v)
    }
}

/// The latest position has the hash, and no later one has it.
proof fn lemma_latest(a: Seq<u8>, from: int, next: int, q: int)
    requires
        0 <= from <= q < next,
    ensures
        ({
            let r = latest(a, from, next, hash3(a, q));
            &&& q <= r < next
            &&& hash3(a, r) == hash3(a, q)
        }),
    decreases next - from,
{
    if hash3(a, next - 1) != hash3(a, q) {
        lemma_latest(a, from, next - 1, q);
    }
}

/// The latest position is one of them.
proof fn lemma_latest_bound(a: Seq<u8>, from: int, next: int, v: u16)
    requires
        0 <= from,
    ensures
        latest(a, from, next, v) == -1 || from <= latest(a, from, next, v) < next,
    decreases next - from,
{
    if from < next {
        lemma_latest_bound(a, from, next - 1, v);
    }
}

/// A chain remembers the positions from `from` to `next`: the latest one with each hash, and
/// the hashes of those in the window.
pub open spec fn remembers(c: Links, a: Seq<u8>, from: int, next: int) -> bool {
    &&& c.head.len() == 65536
    &&& c.prev.len() == 32768
    &&& c.hashval.len() == 32768
    &&& hash_step(c.val, byte_at(a, next + 2)) == hash3(a, next)
    &&& hash_step(hash_step(c.val, byte_at(a, next + 2)), byte_at(a, next + 3)) == hash3(a, next + 1)
    &&& forall|q: int|
        from <= q < next && next - 32768 <= q ==> c.hashval[q % 32768] == #[trigger] hash3(a, q)
    &&& forall|v: u16|
        #![trigger c.head[v as int]]
        c.head[v as int] == if latest(a, from, next, v) < 0 {
            HASH_NONE
        } else {
            (latest(a, from, next, v) % 32768) as u16
        }
}

/// Positions that are entered are remembered.
proof fn lemma_entered(a: Seq<u8>, from: int, next: int)
    requires
        0 <= from <= next <= a.len(),
        from + 1 < a.len(),
    ensures
        remembers(Chains::fresh().warmed(a, from).entered(a, from, next).one, a, from, next),
    decreases next - from,
{
    let c = Chains::fresh().warmed(a, from).entered(a, from, next).one;
    if next == from {
        lemma_forgets(0, a[from], a[from + 1], byte_at(a, from + 2));
        lemma_forgets(hash_step(0, a[from]), a[from + 1], byte_at(a, from + 2), byte_at(a, from + 3));
        assert forall|v: u16| #![trigger c.head[v as int]] c.head[v as int] == HASH_NONE by {}
    } else {
        let pos = next - 1;
        let b = Chains::fresh().warmed(a, from).entered(a, from, pos).one;
        lemma_entered(a, from, pos);
        let v = hash3(a, pos);
        assert(c == b.linked(pos % 32768, v));
        lemma_forgets(
            hash_step(hash_step(0, byte_at(a, pos)), byte_at(a, pos + 1)),
            byte_at(a, pos + 2),
            byte_at(a, pos + 3),
            byte_at(a, pos + 4),
        );
        lemma_forgets(
            hash_step(0, byte_at(a, pos)),
            byte_at(a, pos + 1),
            byte_at(a, pos + 2),
            byte_at(a, pos + 3),
        );
        assert forall|q: int| from <= q < next && next - 32768 <= q implies c.hashval[q % 32768]
            == #[trigger] hash3(a, q) by {
            if q < pos {
                assert(b.hashval[q % 32768] == hash3(a, q));
                assert(q % 32768 != pos % 32768);
            }
        }
        assert forall|x: u16| #![trigger c.head[x as int]] c.head[x as int] == if latest(
            a,
            from,
            next,
            x,
        ) < 0 {
            HASH_NONE
        } else {
            (latest(a, from, next, x) % 32768) as u16
        } by {
            if x != v {
                assert(c.head[x as int] == b.head[x as int]);
            }
        }
    }
}

/// Where the three bytes at a position stand at an earlier one in the window, the chain
/// leads from it to a position with the same hash that is no further back.
pub proof fn law_repeat_is_linked(a: Seq<u8>, from: int, q: int, pos: int)
    requires
        0 <= from <= q < pos,
        pos - q < 32768,
        pos + 2 < a.len(),
        forall|k: int| 0 <= k < 3 ==> #[trigger] a[q + k] == a[pos + k],
    ensures
        ({
            let c = Chains::fresh().warmed(a, from).entered(a, from, pos + 1);
            let d = search::back(pos % 32768, c.one.prev[pos % 32768] as int);
            &&& 1 <= d <= pos - q
            &&& hash3(a, pos - d) == hash3(a, pos)
            &&& forall|r: int| pos - d < r < pos ==> #[trigger] hash3(a, r) != hash3(a, pos)
        }),
{
    let b = Chains::fresh().warmed(a, from).entered(a, from, pos).one;
    let c = Chains::fresh().warmed(a, from).entered(a, from, pos + 1).one;
    lemma_entered(a, from, pos);
    let v = hash3(a, pos);
    assert(a[q + 0] == a[pos + 0] && a[q + 1] == a[pos + 1] && a[q + 2] == a[pos + 2]);
    assert(hash3(a, q) == v);
    assert(c == b.linked(pos % 32768, v));
    lemma_latest(a, from, pos, q);
    let r = latest(a, from, pos, v);
    assert(b.head[v as int] == (r % 32768) as u16);
    assert(b.hashval[r % 32768] == hash3(a, r));
    assert(c.prev[pos % 32768] == (r % 32768) as u16);
    assert(search::back(pos % 32768, r % 32768) == pos - r);
    assert forall|x: int| r < x < pos implies #[trigger] hash3(a, x) != v by {
        if hash3(a, x) == v {
            lemma_latest(a, from, pos, x);
        }
    }
}

/// A repetition in the window is found, if no position in between has the same hash.
pub proof fn law_repetition_is_found(a: Seq<u8>, from: int, q: int, pos: int, len: int, limit: int)
    requires
        0 <= from <= q < pos,
        pos - q < 32768,
        3 <= len <= limit,
        items::is_match(a, pos, len, pos - q),
        forall|r: int| q < r < pos ==> #[trigger] hash3(a, r) != hash3(a, pos),
    ensures
        search::longest(
            Chains::fresh().warmed(a, from).entered(a, from, pos + 1),
            a,
            pos,
            limit,
        ).0 >= len,
{
    let c = Chains::fresh().warmed(a, from).entered(a, from, pos + 1);
    assert forall|k: int| 0 <= k < 3 implies #[trigger] a[q + k] == a[pos + k] by {
        assert(a[pos + k] == a[pos + k - (pos - q)]);
    }
    law_repeat_is_linked(a, from, q, pos);
    let d = search::back(pos % 32768, c.one.prev[pos % 32768] as int);
    if d < pos - q {
        assert(hash3(a, pos - d) != hash3(a, pos));
    }
    search::law_nearest_is_found(c, a, pos, limit, len);
}

/// The distances for the lengths up to `len` grow with the lengths.
pub open spec fn growing(sublen: Seq<u16>, len: int) -> bool {
    forall|j: int, k: int| 1 < j <= k <= len ==> #[trigger] sublen[j] <= #[trigger] sublen[k]
}

/// The distances that a search has for the lengths grow with the lengths, and none is greater
/// than that of the place it has got to.
pub open spec fn nearest_first(s: Hunt) -> bool {
    &&& 1 <= s.len
    &&& 0 <= s.dist
    &&& forall|k: int| 1 < k <= s.len ==> #[trigger] s.sublen[k] <= s.dist
    &&& growing(s.sublen, s.len)
}

/// A shorter match never has a greater distance than a longer one.
pub proof fn law_shorter_is_nearer(c: Chains, a: Seq<u8>, pos: int, limit: int, s: Hunt)
    requires
        nearest_first(s),
        limit < s.sublen.len(),
        0 <= s.p < 32768,
        forall|i: int| 0 <= i < 32768 ==> #[trigger] c.one.prev[i] < 32768,
        forall|i: int| 0 <= i < 32768 ==> #[trigger] c.two.prev[i] < 32768,
    ensures
        growing(
            search::hunt(c, a, pos, limit, s).sublen,
            search::hunt(c, a, pos, limit, s).len,
        ),
    decreases s.left,
{
    if s.dist < 32768 && s.left > 0 && s.len < limit {
        lemma_equal_most(a, pos, s.dist, 0, limit);
        let t = s.tried(a, pos, limit);
        assert(nearest_first(t));
        if t.len < limit {
            let second = t.switches(c, pos);
            let q = if second {
                c.two.prev[t.p] as int
            } else {
                c.one.prev[t.p] as int
            };
            if q != t.p {
                let n = Hunt {
                    second,
                    p: q,
                    dist: t.dist + search::back(t.p, q),
                    left: t.left - 1,
                    len: t.len,
                    best: t.best,
                    sublen: t.sublen,
                };
                assert(search::back(t.p, q) >= 0);
                assert(nearest_first(n));
                law_shorter_is_nearer(c, a, pos, limit, n);
            }
        }
    }
}

/// No more bytes are equal than are looked at.
proof fn lemma_equal_most(a: Seq<u8>, pos: int, dist: int, k: int, limit: int)
    requires
        k <= limit,
    ensures
        search::equal_from(a, pos, dist, k, limit) <= limit,
    decreases limit - k,
{
    if k < limit && a[pos + k] == a[pos + k - dist] {
        lemma_equal_most(a, pos, dist, k + 1, limit);
    }
}

/// A greedy parse does not write a literal where the nearest place repeats four bytes or more:
/// it puts the match off for one position, or takes it.
pub proof fn law_greedy_keeps_matches(g: Greedy, a: Seq<u8>, len: int)
    requires
        0 <= g.i,
        g.held is None,
        4 <= len <= 258,
        search::back(
            g.i % 32768,
            g.chains.with(a, g.i).one.prev[g.i % 32768] as int,
        ) < 32768,
        items::is_match(
            a,
            g.i,
            len,
            search::back(g.i % 32768, g.chains.with(a, g.i).one.prev[g.i % 32768] as int),
        ),
    ensures
        ({
            let n = g.step(a);
            ||| n.held is Some && n.ls == g.ls && n.i == g.i + 1
            ||| n.held is None && n.ls.len() == g.ls.len() + 1 && n.ls.last() is LengthDist && n.i
                >= g.i + len
        }),
{
    search::law_nearest_is_found(g.chains.with(a, g.i), a, g.i, 258, len);
}

/// A greedy parse that has put off a match writes it, unless it goes on with a match at the
/// next position that is longer.
pub proof fn law_greedy_drops_for_longer(g: Greedy, a: Seq<u8>, len: u16, dist: u16)
    requires
        0 <= g.i,
        3 <= len <= 258,
        g.held == Some((len, dist)),
    ensures
        ({
            let n = g.step(a);
            let found = search::longest(g.chains.with(a, g.i), a, g.i, 258).0;
            ||| n.held is None && n.ls == g.ls.push(LitLen::LengthDist(len, dist)) && n.i == g.i - 1
                + len
            ||| found > len && (n.held is Some || n.ls.last() is LengthDist)
        }),
{
}

} // verus!
