//! A cache of the longest matches of a block.
//!
//! For each position it keeps the longest match, and a compressed table of the distances
//! for the shorter lengths: up to eight entries of a length and the distance that holds
//! up to it.

use crate::compress::full_optimal::chain::{Chains, ZopfliHash, MAX_MATCH, MIN_MATCH};
use crate::compress::full_optimal::search::find_longest_match_loop;
use crate::compress::full_optimal::search;
use crate::compress::items;
use vstd::prelude::*;

verus! {

/// How many distances are kept for a position.
pub const CACHE_LENGTH: usize = 8;

/// The length of an entry.
pub open spec fn entry_len(e: Seq<u8>, j: int) -> int {
    e[3 * j] + 3
}

/// The distance of an entry.
pub open spec fn entry_dist(e: Seq<u8>, j: int) -> int {
    e[3 * j + 1] + 256 * e[3 * j + 2]
}

/// The length up to which distances are kept.
pub open spec fn max_of(e: Seq<u8>) -> int {
    if e[1] == 0 && e[2] == 0 {
        0
    } else {
        e[21] + 3
    }
}

/// The distance that is kept for a length: that of the first entry, from the `j`th on,
/// that reaches it.
pub open spec fn kept_from(e: Seq<u8>, j: int, len: int) -> int
    decreases 7 - j,
{
    if j >= 7 || entry_len(e, j) >= len {
        entry_dist(e, j)
    } else {
        kept_from(e, j + 1, len)
    }
}

/// The distance that is kept for a length.
pub open spec fn kept_dist(e: Seq<u8>, len: int) -> int {
    kept_from(e, 0, len)
}

/// Entries that do not reach a length are passed over.
proof fn lemma_kept(e: Seq<u8>, i: int, j: int, len: int)
    requires
        0 <= i <= j <= 7,
        forall|k: int| i <= k < j ==> #[trigger] entry_len(e, k) < len,
    ensures
        kept_from(e, i, len) == kept_from(e, j, len),
    decreases j - i,
{
    if i < j {
        assert(entry_len(e, i) < len);
        lemma_kept(e, i + 1, j, len);
    }
}

/// Entries that agree up to the one that reaches a length keep the same distance for it.
proof fn lemma_kept_same(e: Seq<u8>, f: Seq<u8>, i: int, j: int, len: int)
    requires
        0 <= i <= j <= 7,
        forall|k: int|
            i <= k <= j ==> #[trigger] entry_len(e, k) == entry_len(f, k) && entry_dist(e, k)
                == entry_dist(f, k),
        entry_len(e, j) >= len,
    ensures
        kept_from(e, i, len) == kept_from(f, i, len),
    decreases j - i,
{
    assert(entry_len(e, i) == entry_len(f, i));
    if i < j && entry_len(e, i) < len {
        lemma_kept_same(e, f, i + 1, j, len);
    }
}

/// The first `c` entries are matches of growing length, and the last of them has the
/// greatest length.
pub open spec fn entries_ok(e: Seq<u8>, a: Seq<u8>, p: int, c: int) -> bool {
    &&& 1 <= c <= 8
    &&& entry_len(e, c - 1) == max_of(e)
    &&& forall|j: int|
        0 <= j < c ==> #[trigger] entry_dist(e, j) < 32768 && items::is_match(
            a,
            p,
            entry_len(e, j),
            entry_dist(e, j),
        )
    &&& forall|j: int, k: int|
        0 <= j < k < c ==> #[trigger] entry_len(e, j) < #[trigger] entry_len(e, k)
}

/// The longest match at a position.
pub struct LongestMatch {
    pub distance: u16,
    pub length: u16,
    pub from_cache: bool,
    pub limit: usize,
}

impl LongestMatch {
    /// No match yet.
    pub fn new(limit: usize) -> (r: Self)
        ensures
            r == (LongestMatch { distance: 0, length: 0, from_cache: false, limit }),
    {
        LongestMatch { distance: 0, length: 0, from_cache: false, limit }
    }
}

/// The longest matches of the positions of a block.
pub struct MatchCache {
    /// The length; 1 with distance 0 where nothing is known, 0 where there is no match.
    pub length: Vec<u16>,
    /// The distance.
    pub dist: Vec<u16>,
    /// The distances of the shorter lengths.
    pub sublen: Vec<[u8; 24]>,
    /// All distances of all known positions are kept.
    pub sublen_complete: bool,
}

impl MatchCache {
    /// Something is known of a position.
    pub open spec fn available(&self, i: int) -> bool {
        self.length@[i] == 0 || self.dist@[i] != 0
    }

    /// What is known of a position is right.
    pub open spec fn slot_ok(&self, a: Seq<u8>, base: int, i: int) -> bool {
        ||| self.length@[i] <= 1 && self.dist@[i] == 0
        ||| {
            let e = self.sublen@[i]@;
            &&& 3 <= self.length@[i] <= 258
            &&& self.dist@[i] != 0
            &&& search::found(a, base + i, 258, self.length@[i] as int, self.dist@[i] as int)
            &&& max_of(e) <= self.length@[i]
            &&& self.sublen_complete ==> max_of(e) == self.length@[i]
            &&& exists|c: int| #[trigger] entries_ok(e, a, base + i, c)
        }
    }

    /// The cache is one for the block of the data from `base` on.
    pub open spec fn wf(&self, a: Seq<u8>, base: int) -> bool {
        &&& self.length@.len() == self.dist@.len()
        &&& self.length@.len() == self.sublen@.len()
        &&& 0 <= base
        &&& base + self.length@.len() <= a.len()
        &&& forall|i: int| 0 <= i < self.length@.len() ==> #[trigger] self.slot_ok(a, base, i)
    }

    /// A search with this limit can be answered from the cache.
    pub open spec fn serves(&self, i: int, limit: int) -> bool {
        let m = max_of(self.sublen@[i]@);
        &&& self.available(i)
        &&& limit == 258 || self.length@[i] <= limit || m >= limit
        &&& self.length@[i] <= m || self.length@[i] == 0
    }

    /// The limit up to which a search has to go: where the cache knows the match but not all
    /// distances, it need not go beyond the match.
    pub open spec fn limit_for(&self, i: int, limit: int) -> int {
        if self.available(i) && (limit == 258 || self.length@[i] <= limit || max_of(
            self.sublen@[i]@,
        ) >= limit) && self.length@[i] < limit {
            self.length@[i] as int
        } else {
            limit
        }
    }

    /// A cache that knows nothing.
    pub fn new(blocksize: usize) -> (r: Self)
        ensures
            r.length@.len() == blocksize,
            r.sublen_complete,
            forall|a: Seq<u8>, base: int|
                0 <= base && base + blocksize <= a.len() ==> #[trigger] r.wf(a, base),
            forall|i: int| 0 <= i < blocksize ==> !#[trigger] r.available(i),
    {
        let mut sublen: Vec<[u8; 24]> = Vec::new();
        let mut i: usize = 0;
        while i < blocksize
            invariant
                i <= blocksize,
                sublen@.len() == i,
            decreases blocksize - i,
        {
            sublen.push([0u8; 24]);
            i = i + 1;
        }
        MatchCache {
            length: vec![1u16; blocksize],
            dist: vec![0u16; blocksize],
            sublen,
            sublen_complete: true,
        }
    }

    /// Whether all distances of all known positions are kept.
    pub fn is_sublen_complete(&self) -> (r: bool)
        ensures
            r == self.sublen_complete,
    {
        self.sublen_complete
    }

    /// The length up to which distances are kept for a position.
    pub fn max_sublen(&self, pos: usize) -> (r: usize)
        requires
            pos < self.sublen@.len(),
        ensures
            r == max_of(self.sublen@[pos as int]@),
    {
        let e: &[u8; 24] = &self.sublen[pos];
        if e[1] == 0 && e[2] == 0 {
            return 0;
        }
        e[21] as usize + 3
    }

    /// Keep the distances of the lengths up to `length`, as far as there is room.
    fn store_sublen(
        &mut self,
        sublen: &Vec<u16>,
        pos: usize,
        length: usize,
        a: Ghost<Seq<u8>>,
        p: Ghost<int>,
    )
        requires
            pos < old(self).sublen@.len(),
            3 <= length <= 258,
            search::sublens_ok(a@, p@, sublen@, 2, length as int),
        ensures
            final(self).length == old(self).length,
            final(self).dist == old(self).dist,
            final(self).sublen@.len() == old(self).sublen@.len(),
            forall|i: int|
                0 <= i < old(self).sublen@.len() && i != pos ==> #[trigger] final(self).sublen@[i]
                    == old(self).sublen@[i],
            final(self).sublen_complete ==> old(self).sublen_complete,
            final(self).sublen_complete ==> max_of(final(self).sublen@[pos as int]@) == length,
            3 <= max_of(final(self).sublen@[pos as int]@) <= length,
            exists|c: int| #[trigger] entries_ok(final(self).sublen@[pos as int]@, a@, p@, c),
            forall|k: int|
                3 <= k <= max_of(final(self).sublen@[pos as int]@) ==> #[trigger] kept_dist(
                    final(self).sublen@[pos as int]@,
                    k,
                ) == sublen@[k],
    {
        let mut e: [u8; 24] = self.sublen[pos];
        let mut i: usize = 3;
        let mut j: usize = 0;
        let mut bestlength: usize = 0;
        while i <= length && j < CACHE_LENGTH
            invariant
                3 <= i <= length + 1,
                length <= 258,
                j <= 8,
                search::sublens_ok(a@, p@, sublen@, 2, length as int),
                bestlength < i,
                j == 0 ==> bestlength == 0,
                i == length + 1 ==> j > 0 && bestlength == length,
                j > 0 ==> 3 <= bestlength && entry_len(e@, j - 1) == bestlength,
                j > 0 ==> e@[1] != 0 || e@[2] != 0,
                forall|k: int|
                    0 <= k < j ==> #[trigger] entry_dist(e@, k) < 32768 && items::is_match(
                        a@,
                        p@,
                        entry_len(e@, k),
                        entry_dist(e@, k),
                    ),
                forall|k: int, m: int|
                    0 <= k < m < j ==> #[trigger] entry_len(e@, k) < #[trigger] entry_len(e@, m),
                forall|m: int| bestlength < m < i && 3 <= m && j < 8 ==> #[trigger] sublen@[m] == sublen@[i as int],
                forall|m: int| 3 <= m <= bestlength ==> #[trigger] kept_dist(e@, m) == sublen@[m],
            decreases length + 1 - i,
        {
            if i == length || sublen[i] != sublen[i + 1] {
                let d: u16 = sublen[i];
                let ghost e0 = e@;
                e[3 * j] = (i - 3) as u8;
                e[3 * j + 1] = (d % 256) as u8;
                e[3 * j + 2] = (d / 256) as u8;
                proof {
                    assert(items::is_match(a@, p@, i as int, sublen@[i as int] as int));
                    assert(entry_dist(e@, j as int) == d);
                    assert(entry_len(e@, j as int) == i);
                    assert forall|k: int| 0 <= k < j implies #[trigger] entry_dist(e@, k) == entry_dist(
                        e0,
                        k,
                    ) && entry_len(e@, k) == entry_len(e0, k) by {}
                    assert forall|k: int, m: int|
                        0 <= k < m < j + 1 implies #[trigger] entry_len(e@, k) < #[trigger] entry_len(
                        e@,
                        m,
                    ) by {
                        assert(entry_dist(e@, k) == entry_dist(e0, k));
                        if m < j {
                            assert(entry_dist(e@, m) == entry_dist(e0, m));
                            assert(entry_len(e0, k) < entry_len(e0, m));
                        } else if k < j - 1 {
                            assert(entry_len(e0, k) < entry_len(e0, j - 1));
                        }
                    }
                    if j > 0 {
                        assert(entry_dist(e@, 0) == entry_dist(e0, 0));
                    }
                    assert forall|m: int| 3 <= m <= i implies #[trigger] kept_dist(e@, m)
                        == sublen@[m] by {
                        if m <= bestlength {
                            assert forall|k: int| 0 <= k <= j - 1 implies #[trigger] entry_len(e0, k)
                                == entry_len(e@, k) && entry_dist(e0, k) == entry_dist(e@, k) by {
                                assert(entry_dist(e@, k) == entry_dist(e0, k));
                            }
                            assert(kept_dist(e0, m) == sublen@[m]);
                            lemma_kept_same(e0, e@, 0, j - 1, m);
                        } else {
                            assert forall|k: int| 0 <= k < j implies #[trigger] entry_len(e@, k) < m by {
                                if k < j - 1 {
                                    assert(entry_len(e@, k) < entry_len(e@, j - 1));
                                }
                                assert(entry_dist(e@, j - 1) == entry_dist(e0, j - 1));
                            }
                            lemma_kept(e@, 0, j as int, m);
                            assert(sublen@[m] == sublen@[i as int]);
                        }
                    }
                }
                bestlength = i;
                j = j + 1;
            }
            i = i + 1;
        }
        let ghost e1 = e@;
        if j < CACHE_LENGTH {
            e[21] = (bestlength - 3) as u8;
        } else {
            self.sublen_complete = false;
        }
        self.sublen.set(pos, e);
        proof {
            assert forall|k: int| 0 <= k < j implies #[trigger] entry_dist(e@, k) == entry_dist(e1, k)
                && entry_len(e@, k) == entry_len(e1, k) by {}
            assert(self.sublen@[pos as int]@ == e@);
            assert(entries_ok(self.sublen@[pos as int]@, a@, p@, j as int)) by {
                assert(entry_dist(e@, j - 1) == entry_dist(e1, j - 1));
                assert forall|k: int, m: int|
                    0 <= k < m < j implies #[trigger] entry_len(e@, k) < #[trigger] entry_len(e@, m) by {
                    assert(entry_dist(e@, k) == entry_dist(e1, k));
                    assert(entry_dist(e@, m) == entry_dist(e1, m));
                    assert(entry_len(e1, k) < entry_len(e1, m));
                }
            }
            assert forall|m: int| 3 <= m <= max_of(e@) implies #[trigger] kept_dist(e@, m)
                == sublen@[m] by {
                assert forall|k: int| 0 <= k <= j - 1 implies #[trigger] entry_len(e1, k)
                    == entry_len(e@, k) && entry_dist(e1, k) == entry_dist(e@, k) by {
                    assert(entry_dist(e@, k) == entry_dist(e1, k));
                }
                assert(kept_dist(e1, m) == sublen@[m]);
                lemma_kept_same(e1, e@, 0, j - 1, m);
            }
        }
    }

    /// Fill the table with the distances that are kept for a position.
    fn fetch_sublen(&self, pos: usize, sublen: &mut Vec<u16>, a: Ghost<Seq<u8>>, p: Ghost<int>)
        requires
            pos < self.sublen@.len(),
            old(sublen)@.len() >= 259,
            exists|c: int| #[trigger] entries_ok(self.sublen@[pos as int]@, a@, p@, c),
        ensures
            final(sublen)@.len() == old(sublen)@.len(),
            search::sublens_ok(a@, p@, final(sublen)@, 0, max_of(self.sublen@[pos as int]@)),
            forall|k: int|
                0 <= k <= max_of(self.sublen@[pos as int]@) ==> #[trigger] final(sublen)@[k]
                    == kept_dist(self.sublen@[pos as int]@, k),
    {
        let e: [u8; 24] = self.sublen[pos];
        let ghost c = choose|c: int| #[trigger] entries_ok(e@, a@, p@, c);
        let maxlength: usize = self.max_sublen(pos);
        let mut prevlength: usize = 0;
        let mut j: usize = 0;
        let mut done: bool = false;
        while !done
            invariant
                e == self.sublen@[pos as int],
                entries_ok(e@, a@, p@, c),
                maxlength == max_of(e@),
                sublen@.len() == old(sublen)@.len(),
                sublen@.len() >= 259,
                !done ==> j < c && prevlength == if j == 0 {
                    0
                } else {
                    entry_len(e@, j - 1) + 1
                } && search::sublens_ok(a@, p@, sublen@, 0, prevlength - 1),
                done ==> search::sublens_ok(a@, p@, sublen@, 0, maxlength as int),
                !done ==> forall|k: int|
                    0 <= k < prevlength ==> #[trigger] sublen@[k] == kept_dist(e@, k),
                done ==> forall|k: int|
                    0 <= k <= maxlength ==> #[trigger] sublen@[k] == kept_dist(e@, k),
            ensures
                search::sublens_ok(a@, p@, sublen@, 0, maxlength as int),
                forall|k: int| 0 <= k <= maxlength ==> #[trigger] sublen@[k] == kept_dist(e@, k),
            decreases c - j + if done { 0int } else { 1 },
        {
            let length: usize = e[3 * j] as usize + 3;
            let dist: u16 = e[3 * j + 1] as u16 + 256 * e[3 * j + 2] as u16;
            assert(entry_dist(e@, j as int) == dist);
            let mut i: usize = prevlength;
            proof {
                assert forall|k: int| prevlength <= k <= length implies #[trigger] kept_dist(e@, k)
                    == dist by {
                    assert forall|m: int| 0 <= m < j implies #[trigger] entry_len(e@, m) < k by {
                        if m < j - 1 {
                            assert(entry_len(e@, m) < entry_len(e@, j - 1));
                        }
                    }
                    lemma_kept(e@, 0, j as int, k);
                }
            }
            while i <= length
                invariant
                    forall|k: int| prevlength <= k <= length ==> #[trigger] kept_dist(e@, k) == dist,
                    forall|k: int| 0 <= k < i ==> #[trigger] sublen@[k] == kept_dist(e@, k),
                    prevlength <= i,
                    i <= length + 1 || i == prevlength,
                    length <= 258,
                    sublen@.len() == old(sublen)@.len(),
                    sublen@.len() >= 259,
                    dist < 32768,
                    items::is_match(a@, p@, length as int, dist as int),
                    search::sublens_ok(a@, p@, sublen@, 0, i - 1),
                decreases length + 1 - i,
            {
                let ghost s0 = sublen@;
                sublen.set(i, dist);
                proof {
                    search::lemma_shorter(a@, p@, length as int, dist as int, i as int);
                    assert forall|k: int| 0 <= k <= i implies items::is_match(
                        a@,
                        p@,
                        k,
                        (#[trigger] sublen@[k]) as int,
                    ) && sublen@[k] < 32768 by {
                        if k < i {
                            assert(sublen@[k] == s0[k]);
                        }
                    }
                }
                i = i + 1;
            }
            proof {
                if j > 0 {
                    assert(entry_len(e@, j - 1) < entry_len(e@, j as int));
                }
                if j < c - 1 {
                    assert(entry_len(e@, j as int) < entry_len(e@, c - 1));
                }
            }
            if length == maxlength {
                done = true;
            } else {
                prevlength = length + 1;
                j = j + 1;
            }
        }
    }

    /// What the cache knows of a position. Where it knows the match but not all distances,
    /// the search need not go beyond the match.
    pub fn try_get(
        &self,
        pos: usize,
        limit: usize,
        sublen: &mut Vec<u16>,
        blockstart: usize,
        a: Ghost<Seq<u8>>,
    ) -> (r: LongestMatch)
        requires
            self.wf(a@, blockstart as int),
            blockstart <= pos < blockstart + self.length@.len(),
            3 <= limit <= 258,
            old(sublen)@.len() >= 259,
        ensures
            final(sublen)@.len() == old(sublen)@.len(),
            r.from_cache == self.serves(pos - blockstart, limit as int),
            r.from_cache ==> r.length == if self.length@[pos - blockstart] < limit {
                self.length@[pos - blockstart] as int
            } else {
                limit as int
            },
            r.from_cache && r.length >= 3 ==> forall|k: int|
                0 <= k <= r.length ==> #[trigger] final(sublen)@[k] == kept_dist(
                    self.sublen@[pos - blockstart]@,
                    k,
                ),
            r.from_cache && r.length < 3 ==> final(sublen)@ == old(sublen)@,
            r.from_cache ==> r.distance == final(sublen)@[r.length as int],
            !r.from_cache ==> r.limit == self.limit_for(pos - blockstart, limit as int),
            r.from_cache ==> r.length <= limit && (r.length == 0 || r.length >= 3) && r.limit == limit,
            r.from_cache && r.length >= 3 ==> {
                &&& search::sublens_ok(a@, pos as int, final(sublen)@, 0, r.length as int)
                &&& r.distance == final(sublen)@[r.length as int]
            },
            r.from_cache && limit == 258 ==> r.length == self.length@[pos - blockstart],
            !r.from_cache ==> r.distance == 0 && r.length == 0 && 3 <= r.limit <= limit && final(sublen)@ == old(sublen)@,
            !r.from_cache && r.limit < limit ==> self.length@[pos - blockstart] == r.limit,
            !self.available(pos - blockstart) ==> !r.from_cache && r.limit == limit,
            limit == 258 && self.available(pos - blockstart) && self.sublen_complete ==> r.from_cache,
    {
        let mut longest_match: LongestMatch = LongestMatch::new(limit);
        let lmcpos: usize = pos - blockstart;
        let length_lmcpos: usize = self.length[lmcpos] as usize;
        let dist_lmcpos: u16 = self.dist[lmcpos];
        proof {
            assert(self.slot_ok(a@, blockstart as int, lmcpos as int));
        }
        let cache_available: bool = length_lmcpos == 0 || dist_lmcpos != 0;
        let max_sublen: usize = self.max_sublen(lmcpos);
        let limit_ok: bool = limit == MAX_MATCH || length_lmcpos <= limit || max_sublen >= limit;
        if limit_ok && cache_available {
            if length_lmcpos <= max_sublen || length_lmcpos == 0 {
                let length: usize = if length_lmcpos < limit {
                    length_lmcpos
                } else {
                    limit
                };
                if length >= 3 {
                    self.fetch_sublen(lmcpos, sublen, a, Ghost(pos as int));
                }
                longest_match.distance = sublen[length];
                longest_match.length = length as u16;
                longest_match.from_cache = true;
                return longest_match;
            }
            if length_lmcpos < limit {
                longest_match.limit = length_lmcpos;
            }
        }
        longest_match
    }

    /// Keep what a search found at a position, unless something is known of it.
    pub fn store(
        &mut self,
        pos: usize,
        sublen: &Vec<u16>,
        distance: u16,
        length: u16,
        blockstart: usize,
        a: Ghost<Seq<u8>>,
    )
        requires
            old(self).wf(a@, blockstart as int),
            blockstart <= pos < blockstart + old(self).length@.len(),
            search::found(a@, pos as int, 258, length as int, distance as int),
            search::sublens_ok(a@, pos as int, sublen@, 2, length as int),
        ensures
            final(self).wf(a@, blockstart as int),
            final(self).length@.len() == old(self).length@.len(),
            final(self).available(pos - blockstart),
            old(self).available(pos - blockstart) ==> *final(self) == *old(self),
            !old(self).available(pos - blockstart) ==> final(self).length@[pos - blockstart] == if length
                < 3 {
                0
            } else {
                length
            } && final(self).dist@[pos - blockstart] == if length < 3 {
                0
            } else {
                distance
            },
            !old(self).available(pos - blockstart) && length >= 3 ==> forall|k: int|
                3 <= k <= max_of(final(self).sublen@[pos - blockstart]@) ==> #[trigger] kept_dist(
                    final(self).sublen@[pos - blockstart]@,
                    k,
                ) == sublen@[k],
            forall|i: int|
                0 <= i < old(self).length@.len() && i != pos - blockstart ==> #[trigger] final(self).length@[i] == old(self).length@[i] && final(self).dist@[i] == old(self).dist@[i]
                    && final(self).sublen@[i] == old(self).sublen@[i],
    {
        let lmcpos: usize = pos - blockstart;
        let ghost s0 = *self;
        let cache_available: bool = self.length[lmcpos] == 0 || self.dist[lmcpos] != 0;
        if !cache_available {
            if length < MIN_MATCH as u16 {
                self.dist.set(lmcpos, 0);
                self.length.set(lmcpos, 0);
            } else {
                self.dist.set(lmcpos, distance);
                self.length.set(lmcpos, length);
                self.store_sublen(sublen, lmcpos, length as usize, a, Ghost(pos as int));
            }
            proof {
                assert forall|i: int| 0 <= i < self.length@.len() implies #[trigger] self.slot_ok(
                    a@,
                    blockstart as int,
                    i,
                ) by {
                    assert(s0.slot_ok(a@, blockstart as int, i));
                    if i != lmcpos {
                        assert(self.sublen@[i] == s0.sublen@[i]);
                    }
                }
            }
        }
    }
}

/// What is found at a position, the `i`th of the block: what the cache holds where it can
/// answer, else what the search finds; nothing where fewer than three bytes are left.
pub open spec fn found_at(
    lmc: MatchCache,
    c: Chains,
    a: Seq<u8>,
    pos: int,
    i: int,
    limit: int,
    before: Seq<u16>,
    len: int,
    sublen: Seq<u16>,
) -> bool {
    if lmc.serves(i, limit) {
        &&& len == if lmc.length@[i] < limit {
            lmc.length@[i] as int
        } else {
            limit
        }
        &&& len >= 3 ==> forall|k: int|
            0 <= k <= len ==> #[trigger] sublen[k] == kept_dist(lmc.sublen@[i]@, k)
        &&& len < 3 ==> sublen == before
    } else if a.len() - pos < 3 {
        len == 0 && sublen == before
    } else {
        let n = lmc.limit_for(i, limit);
        let e = search::hunted(
            c,
            a,
            pos,
            if n < a.len() - pos {
                n
            } else {
                a.len() - pos
            },
            before,
        );
        len == e.len && sublen == e.sublen
    }
}

/// The cache keeps a match for a position, with the distances of the lengths as far as
/// there is room.
pub open spec fn keeps(lmc: MatchCache, i: int, len: u16, sublen: Seq<u16>) -> bool {
    &&& lmc.length@[i] == if len < 3 {
        0
    } else {
        len
    }
    &&& lmc.dist@[i] == if len < 3 {
        0
    } else {
        sublen[len as int]
    }
    &&& len >= 3 ==> forall|k: int|
        3 <= k <= max_of(lmc.sublen@[i]@) ==> #[trigger] kept_dist(lmc.sublen@[i]@, k) == sublen[k]
}

/// The longest match at a position, from the cache or else by a search, which is then
/// kept.
pub fn find_longest_match(
    lmc: &mut MatchCache,
    h: &ZopfliHash,
    array: &[u8],
    pos: usize,
    blockstart: usize,
    limit: usize,
    sublen: &mut Vec<u16>,
    start: Ghost<int>,
) -> (r: LongestMatch)
    requires
        old(lmc).wf(array@, blockstart as int),
        blockstart <= pos < blockstart + old(lmc).length@.len(),
        blockstart + old(lmc).length@.len() == array@.len(),
        array@.len() - pos >= 3 && !(old(lmc).available(pos - blockstart) && old(lmc).sublen_complete
            && limit == 258) ==> h.knows(array@, start@, pos + 1) && (start@ == 0 || start@ + 32768
            <= pos),
        3 <= limit <= 258,
        old(sublen)@.len() >= 259,
    ensures
        final(lmc).wf(array@, blockstart as int),
        final(lmc).length@.len() == old(lmc).length@.len(),
        final(sublen)@.len() == old(sublen)@.len(),
        found_at(
            *old(lmc),
            h@,
            array@,
            pos as int,
            pos - blockstart,
            limit as int,
            old(sublen)@,
            r.length as int,
            final(sublen)@,
        ),
        r.length >= 3 ==> r.distance == final(sublen)@[r.length as int],
        r.from_cache == old(lmc).serves(pos - blockstart, limit as int),
        !old(lmc).available(pos - blockstart) && array@.len() - pos >= 3 ==> keeps(
            *final(lmc),
            pos - blockstart,
            r.length,
            final(sublen)@,
        ),
        forall|i: int|
            0 <= i < old(lmc).length@.len() && i != pos - blockstart ==> #[trigger] final(lmc).length@[i]
                == old(lmc).length@[i] && final(lmc).dist@[i] == old(lmc).dist@[i]
                && final(lmc).sublen@[i] == old(lmc).sublen@[i],
        r.length <= limit,
        pos + r.length <= array@.len(),
        r.length >= 3 ==> {
            &&& search::sublens_ok(array@, pos as int, final(sublen)@, 2, r.length as int)
            &&& r.distance == final(sublen)@[r.length as int]
        },
        array@.len() - pos >= 3 ==> final(lmc).available(pos - blockstart),
        array@.len() - pos < 3 ==> *final(lmc) == *old(lmc),
        old(lmc).available(pos - blockstart) ==> *final(lmc) == *old(lmc),
        forall|i: int|
            0 <= i < old(lmc).length@.len() && old(lmc).available(i) ==> #[trigger] final(lmc).available(i),
{
    let ghost a = array@;
    let size: usize = array.len();
    let mut longest_match: LongestMatch = lmc.try_get(pos, limit, sublen, blockstart, Ghost(a));
    if longest_match.from_cache {
        proof {
            if longest_match.length >= 3 {
                let k = longest_match.length as int;
                assert(items::is_match(a, pos as int, k, sublen@[k] as int));
            }
        }
        return longest_match;
    }
    let mut limit: usize = longest_match.limit;
    if size - pos < MIN_MATCH {
        longest_match.distance = 0;
        longest_match.length = 0;
        return longest_match;
    }
    if limit > size - pos {
        limit = size - pos;
    }
    let (bestlength, bestdist) = find_longest_match_loop(h, array, pos, limit, sublen, start);
    lmc.store(pos, sublen, bestdist, bestlength, blockstart, Ghost(a));
    longest_match.distance = bestdist;
    longest_match.length = bestlength;
    longest_match
}

/// What the cache keeps of a position it gives back: the same length, and the same distance
/// for each length that a match can have.
pub proof fn law_cache_gives_back(
    lmc: MatchCache,
    c: Chains,
    a: Seq<u8>,
    pos: int,
    i: int,
    before: Seq<u16>,
    len: u16,
    sublen: Seq<u16>,
    len2: int,
    sublen2: Seq<u16>,
)
    requires
        keeps(lmc, i, len, sublen),
        len <= 258,
        len >= 3 ==> sublen[len as int] != 0 && max_of(lmc.sublen@[i]@) == len,
        found_at(lmc, c, a, pos, i, 258, before, len2, sublen2),
    ensures
        len2 == if len < 3 {
            0
        } else {
            len as int
        },
        forall|k: int| 3 <= k <= len2 ==> #[trigger] sublen2[k] == sublen[k],
{
    let e = lmc.sublen@[i]@;
    assert forall|k: int| 3 <= k <= len2 implies #[trigger] sublen2[k] == sublen[k] by {
        assert(kept_dist(e, k) == sublen[k]);
        assert(sublen2[k] == kept_dist(e, k));
    }
}

} // verus!
