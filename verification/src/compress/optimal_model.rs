//! The matches that the binary trees give at each position of the data.

use crate::compress::chain_model;
use crate::compress::progress;
use crate::fast_bytes;
use crate::matchfinder;
use crate::matchfinder::bt;
use crate::matchfinder::bt::{BtTabs, LzMatch};
use vstd::prelude::*;

verus! {

/// A position with what a search there needs: the tables and their base, the longest match
/// to look for, the length that ends a search, and the hashes at the position.
#[verifier::ext_equal]
pub struct Spot {
    pub tabs: BtTabs,
    pub base: int,
    pub next: int,
    pub max_len: int,
    pub nice_len: int,
    pub hash3: int,
    pub hash4: int,
}

/// The window holds the position, and no match reaches past the end of the data.
pub open spec fn settled(s: Spot, h: Seq<u8>) -> Spot {
    let left = h.len() - s.next;
    let slides = s.next - s.base >= 32768;
    Spot {
        tabs: if slides {
            bt::rebased_tabs(s.tabs)
        } else {
            s.tabs
        },
        base: if slides {
            s.base + 32768
        } else {
            s.base
        },
        max_len: if left < 258 {
            left
        } else {
            s.max_len
        },
        nice_len: if left < 258 && left < s.nice_len {
            left
        } else {
            s.nice_len
        },
        ..s
    }
}

/// The tables after the position has been entered, and the matches met on the way; `met`
/// are those of three bytes.
pub open spec fn entering(
    q: Spot,
    h: Seq<u8>,
    max: int,
    depth: int,
    met: Seq<(int, int)>,
) -> (BtTabs, Seq<(int, int)>) {
    bt::entered(
        q.tabs,
        h,
        q.base,
        q.next,
        max,
        q.nice_len,
        depth,
        q.hash3,
        q.hash4,
        met,
    )
}

/// The matches of three bytes at the position.
pub open spec fn three_at(q: Spot, h: Seq<u8>) -> Seq<(int, int)> {
    bt::three(
        h,
        q.base,
        q.next,
        q.tabs.t3[2 * q.hash3] as int,
        q.tabs.t3[2 * q.hash3 + 1] as int,
    )
}

/// One position further, with these tables.
pub open spec fn onward(q: Spot, h: Seq<u8>, tabs: BtTabs) -> Spot {
    if q.max_len >= 5 {
        Spot {
            tabs,
            next: q.next + 1,
            hash3: matchfinder::hash_of(bt::le24(h, q.next + 1), 16),
            hash4: matchfinder::hash_of(fast_bytes::le32(h, q.next + 1), 16),
            ..q
        }
    } else {
        Spot { next: q.next + 1, ..q }
    }
}

/// The matches at the position, longer and longer ones; none close to the end of the data.
pub open spec fn found(s: Spot, h: Seq<u8>, depth: int) -> Seq<(int, int)> {
    let q = settled(s, h);
    if q.max_len >= 5 {
        entering(q, h, q.max_len, depth, three_at(q, h)).1
    } else {
        Seq::empty()
    }
}

/// One position further, after its matches have been looked for.
pub open spec fn after_find(s: Spot, h: Seq<u8>, depth: int) -> Spot {
    let q = settled(s, h);
    onward(q, h, entering(q, h, q.max_len, depth, three_at(q, h)).0)
}

/// One position further, without a look for matches.
pub open spec fn after_enter(s: Spot, h: Seq<u8>, depth: int) -> Spot {
    let q = settled(s, h);
    onward(q, h, entering(q, h, q.nice_len, depth, Seq::empty()).0)
}

/// On to `end`, without a look for matches.
pub open spec fn entered_to(s: Spot, h: Seq<u8>, depth: int, end: int) -> Spot
    decreases end - s.next,
{
    if s.next >= end {
        s
    } else {
        entered_to(after_enter(s, h, depth), h, depth, end)
    }
}

/// What the cache holds for a position: its matches, then an entry with their number and
/// the byte.
pub open spec fn entries(ms: Seq<(int, int)>, lit: u8) -> Seq<LzMatch> {
    ms.map_values(|m: (int, int)| LzMatch { length: m.0 as u16, offset: m.1 as u16 }).push(
        LzMatch { length: ms.len() as u16, offset: lit as u16 },
    )
}

/// What the cache holds for positions where no matches are looked for.
pub open spec fn bare_entries(h: Seq<u8>, from: int, to: int) -> Seq<LzMatch> {
    Seq::new((to - from) as nat, |i: int| LzMatch { length: 0, offset: h[from + i] as u16 })
}

/// A position, and what the cache holds for the positions before it.
#[verifier::ext_equal]
pub struct Scan {
    pub spot: Spot,
    pub cache: Seq<LzMatch>,
}

/// The matches at the position are looked for.
pub open spec fn scan_one(s: Scan, h: Seq<u8>, depth: int) -> Scan {
    Scan {
        spot: after_find(s.spot, h, depth),
        cache: s.cache + entries(found(s.spot, h, depth), h[s.spot.next]),
    }
}

/// The length of the longest of the matches, or 0.
pub open spec fn longest(ms: Seq<(int, int)>) -> int {
    if ms.len() > 0 {
        ms.last().0
    } else {
        0
    }
}

/// The matches at the position are looked for; where the longest is long enough to end a
/// search, none are looked for at the positions that it covers.
#[verifier::opaque]
pub open spec fn scan_step(s: Scan, h: Seq<u8>, depth: int) -> Scan {
    let t = scan_one(s, h, depth);
    let best = longest(found(s.spot, h, depth));
    if best >= 3 && best >= t.spot.nice_len {
        Scan {
            spot: entered_to(t.spot, h, depth, s.spot.next + best),
            cache: t.cache + bare_entries(h, s.spot.next + 1, s.spot.next + best),
        }
    } else {
        t
    }
}

/// What a whole run begins with: tables that know the window before `chunk_start`, and an
/// empty cache.
pub open spec fn first_scan(h: Seq<u8>, chunk_start: int, nice: int, depth: int) -> Scan {
    let dict = progress::dictionary_at(chunk_start);
    let nice_len = chain_model::lesser(258, nice);
    let fresh = Spot {
        tabs: bt::fresh_tabs(),
        base: dict,
        next: dict,
        max_len: 258,
        nice_len,
        hash3: 0,
        hash4: 0,
    };
    Scan {
        spot: Spot { max_len: 258, nice_len, ..entered_to(fresh, h, depth, chunk_start) },
        cache: Seq::empty(),
    }
}

} // verus!
