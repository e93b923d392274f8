//! What the matchfinders with hash tables remember, and what they find.

use crate::compress::block;
use crate::compress::chain_memory;
use crate::compress::compressor::Compressor;
use crate::compress::fastest;
use crate::compress::fastest::Run;
use crate::compress::incremental;
use crate::compress::items;
use crate::compress::level::InternalStrategy;
use crate::compress::pack;
use crate::compress::progress;
use crate::compress::static_turbo;
use crate::compress::static_turbo::Stage;
use crate::fast_bytes;
use crate::matchfinder;
use crate::matchfinder::fast_ht::FastHtMatchfinder;
use crate::matchfinder::ht;
use crate::matchfinder::ht::HtMatchfinder;
use crate::matchfinder::turbo;
use crate::matchfinder::turbo::TurboMatchfinder;
use crate::matchfinder::{HashMatchfinder, Memory};
use vstd::arithmetic::power2::{lemma2_to64, pow2};
use vstd::prelude::*;

verus! {

/// The position that entry `i` of the table stands for.
pub open spec fn pos_of(m: Memory, i: int) -> int {
    m.base + m.tab[i]
}

/// A position that agrees with `next` for `len` bytes, four or more, is probed as such.
proof fn lemma_probe_least(h: Seq<u8>, m: Memory, i: int, next: int, max: int, len: int)
    requires
        0 <= i < m.tab.len(),
        0 <= m.base <= next,
        0 <= pos_of(m, i) < next,
        next - pos_of(m, i) < 32768,
        4 <= len <= max,
        next + max <= h.len(),
        items::is_match(h, next, len, next - pos_of(m, i)),
    ensures
        ({
            let n = matchfinder::slides(m.base, next);
            let e = matchfinder::slid(m.tab, n)[i] as int;
            let base = m.base + 32768 * n;
            &&& base + e == pos_of(m, i)
            &&& e > next - base - 32768
            &&& matchfinder::probe(h, base, next, e, max) >= len
        }),
{
    let n = matchfinder::slides(m.base, next);
    chain_memory::lemma_window(m.base, next);
    chain_memory::lemma_slid(m.tab, m.base, n, i);
    let at = pos_of(m, i);
    let a = h.skip(next);
    let b = h.skip(at);
    assert forall|k: int| 0 <= k < len implies a[k] == b[k] by {
        assert(h[next + k] == h[next + k - (next - at)]);
    }
    assert(a[0] == b[0] && a[1] == b[1] && a[2] == b[2] && a[3] == b[3]);
    fast_bytes::lemma_le32_eq(h, at, h, next);
    chain_memory::lemma_common_least(a, b, 4, max, len);
}

/// The table with one entry for each hash finds the match with the latest position that was
/// entered under the hash, as long as it is.
pub proof fn law_turbo_finds_latest(m: Memory, h: Seq<u8>, next: int, max: int, nice: int, len: int)
    requires
        m.tab.len() == 32768,
        0 <= m.hash < 32768,
        0 <= m.base <= next,
        0 <= pos_of(m, m.hash) < next,
        next - pos_of(m, m.hash) < 32768,
        4 <= len <= max,
        next + max <= h.len(),
        items::is_match(h, next, len, next - pos_of(m, m.hash)),
    ensures
        TurboMatchfinder::found_in(m, h, next, max, nice).0 >= len,
{
    lemma_probe_least(h, m, m.hash, next, max, len);
}

/// The tables with two entries for each hash find a match that is no shorter than the one
/// with the latest position that was entered under the hash.
pub proof fn law_ht_finds_latest(m: Memory, h: Seq<u8>, next: int, max: int, nice: int, len: int)
    requires
        2 * m.hash + 1 < m.tab.len(),
        0 <= m.hash,
        0 <= m.base <= next,
        0 <= pos_of(m, 2 * m.hash) < next,
        next - pos_of(m, 2 * m.hash) < 32768,
        4 <= len <= max,
        next + max <= h.len(),
        items::is_match(h, next, len, next - pos_of(m, 2 * m.hash)),
    ensures
        HtMatchfinder::found_in(m, h, next, max, nice).0 >= len,
        FastHtMatchfinder::found_in(m, h, next, max, nice).0 >= len,
{
    lemma_probe_least(h, m, 2 * m.hash, next, max, len);
}

/// Where the match with the latest position is not good enough, the tables with two entries
/// find one that is no shorter than the one with the position entered before it.
pub proof fn law_ht_finds_second(m: Memory, h: Seq<u8>, next: int, max: int, nice: int, len: int)
    requires
        2 * m.hash + 1 < m.tab.len(),
        0 <= m.hash,
        0 <= m.base <= next,
        next - pos_of(m, 2 * m.hash) < 32768,
        0 <= pos_of(m, 2 * m.hash + 1) < next,
        next - pos_of(m, 2 * m.hash + 1) < 32768,
        4 <= len <= max,
        next + max <= h.len(),
        items::is_match(h, next, len, next - pos_of(m, 2 * m.hash + 1)),
    ensures
        HtMatchfinder::found_in(m, h, next, max, nice).0 >= len || HtMatchfinder::found_in(
            m,
            h,
            next,
            max,
            nice,
        ).0 >= nice,
        FastHtMatchfinder::found_in(m, h, next, max, nice).0 >= len
            || FastHtMatchfinder::found_in(m, h, next, max, nice).0 >= nice,
{
    let n = matchfinder::slides(m.base, next);
    chain_memory::lemma_window(m.base, next);
    chain_memory::lemma_slid(m.tab, m.base, n, 2 * m.hash);
    lemma_probe_least(h, m, 2 * m.hash + 1, next, max, len);
}

/// The position of a search is entered: it is the latest one under its hash, and where there
/// are two entries, the one that was the latest comes second if it lies in the window.
pub proof fn law_search_enters(m: Memory, h: Seq<u8>, next: int)
    requires
        m.tab.len() == 32768 || m.tab.len() == 65536,
        0 <= m.hash,
        2 * m.hash + 1 < m.tab.len(),
        0 <= m.base <= next,
    ensures
        ({
            let a = TurboMatchfinder::after_search(m, h, next);
            &&& pos_of(a, m.hash) == next
            &&& a.base <= next < a.base + 32768
            &&& forall|i: int|
                0 <= i < m.tab.len() && i != m.hash && next - pos_of(m, i) < 32768 ==> #[trigger] pos_of(
                    a,
                    i,
                ) == pos_of(m, i)
        }),
        ({
            let a = HtMatchfinder::after_search(m, h, next);
            &&& pos_of(a, 2 * m.hash) == next
            &&& next - pos_of(m, 2 * m.hash) < 32768 ==> pos_of(a, 2 * m.hash + 1) == pos_of(
                m,
                2 * m.hash,
            )
            &&& a.base <= next < a.base + 32768
            &&& forall|i: int|
                0 <= i < m.tab.len() && i / 2 != m.hash && next - pos_of(m, i) < 32768
                    ==> #[trigger] pos_of(a, i) == pos_of(m, i)
        }),
        FastHtMatchfinder::after_search(m, h, next).tab == HtMatchfinder::after_search(
            m,
            h,
            next,
        ).tab,
        FastHtMatchfinder::after_search(m, h, next).base == HtMatchfinder::after_search(
            m,
            h,
            next,
        ).base,
        TurboMatchfinder::after_search(m, h, next).hash == matchfinder::hash_of(
            fast_bytes::le32(h, next + 1),
            TurboMatchfinder::order_of(),
        ) || next + 5 > h.len(),
        HtMatchfinder::after_search(m, h, next).hash == matchfinder::hash_of(
            fast_bytes::le32(h, next + 1),
            HtMatchfinder::order_of(),
        ),
        FastHtMatchfinder::after_search(m, h, next).hash == matchfinder::hash_of(
            fast_bytes::le32(h, next + 1),
            FastHtMatchfinder::order_of(),
        ),
{
    let n = matchfinder::slides(m.base, next);
    let base = m.base + 32768 * n;
    chain_memory::lemma_window(m.base, next);
    chain_memory::lemma_slid(m.tab, m.base, n, m.hash);
    chain_memory::lemma_slid(m.tab, m.base, n, 2 * m.hash);
    let t = matchfinder::slid(m.tab, n);
    assert forall|i: int| 0 <= i < m.tab.len() && next - pos_of(m, i) < 32768 implies base
        + #[trigger] t[i] == pos_of(m, i) by {
        chain_memory::lemma_slid(m.tab, m.base, n, i);
    }
}

/// What a matchfinder finds is taken, and only where it finds nothing, a literal is.
pub proof fn law_found_is_taken<M: HashMatchfinder>(run: Run, h: Seq<u8>, nice: int)
    requires
        run.next + 258 <= h.len(),
        nice <= 258,
    ensures
        ({
            let found = M::found_in(run.memory, h, run.next, 258, nice);
            let r = fastest::step::<M>(run, h, nice);
            &&& found.0 > 0 ==> r.its == run.its.push(found) && r.next == run.next + found.0
            &&& found.0 <= 0 ==> r.its == run.its.push((1, 0)) && r.next == run.next + 1
        }),
{
}

/// Two calls go on from one another: the next piece begins where the piece before it ended,
/// with the table that the run over that piece ended with, and looks its first position up
/// under its own hash.
pub proof fn law_ht_pieces_join(
    c: Compressor,
    d: Compressor,
    h: Seq<u8>,
    b0: Seq<bool>,
    b1: Seq<bool>,
    last: bool,
) -> (k: nat)
    requires
        c.level.strategy == InternalStrategy::HtGreedy,
        d.level == c.level,
        incremental::moved_on(c, d, h, b0, b1, last),
        d.incremental_pos == h.len(),
        h.len() > 0,
    ensures
        fastest::blocks_written::<HtMatchfinder>(incremental::ht_setup(c), h, b0, b1, last, k),
        ({
            let end = fastest::after_blocks::<HtMatchfinder>(incremental::ht_setup(c), h, k);
            let next = incremental::ht_setup(d);
            &&& end.next == h.len()
            &&& next.start == end.next
            &&& next.tab == end.memory.tab
            &&& next.base == end.memory.base
            &&& !next.blind
        }),
{
    reveal(fastest::written_to);
    let setup = incremental::ht_setup(c);
    choose|k: nat|
        {
            let run = fastest::after_blocks::<HtMatchfinder>(setup, h, k);
            &&& #[trigger] fastest::blocks_written::<HtMatchfinder>(setup, h, b0, b1, last, k)
            &&& run.next == h.len()
            &&& run.memory.tab == d.ht_mf->0.table()
            &&& run.memory.base == d.incremental_base_offset
            &&& k > 0 ==> setup.start < h.len()
        }
}

/// The positions that are entered one after the other stay the latest, unless a later one has
/// the same hash.
proof fn lemma_ht_entered(
    tab: Seq<i16>,
    h: Seq<u8>,
    base: int,
    p: int,
    n: nat,
    hash: int,
    order: nat,
    q: int,
)
    requires
        order == 14 || order == 15,
        tab.len() == 2 * pow2(order),
        hash == matchfinder::hash_of(fast_bytes::le32(h, p), order),
        -32768 <= p - base,
        p - base + n <= 32768,
        p <= q < p + n || {
            &&& q < p
            &&& q <= base + tab[2 * matchfinder::hash_of(fast_bytes::le32(h, q), order)] < p + n
        },
    ensures
        ({
            let t = ht::entered(tab, h, base, p, n, hash, order);
            let e = base + t[2 * matchfinder::hash_of(fast_bytes::le32(h, q), order)];
            t.len() == tab.len() && q <= e < p + n
        }),
    decreases n,
{
    lemma_hash_small(fast_bytes::le32(h, p), order);
    lemma_hash_small(fast_bytes::le32(h, q), order);
    if n > 0 {
        let t = ht::enter(tab, hash, p - base);
        assert(t[2 * hash] == p - base);
        lemma_ht_entered(
            t,
            h,
            base,
            p + 1,
            (n - 1) as nat,
            matchfinder::hash_of(fast_bytes::le32(h, p + 1), order),
            order,
            q,
        );
    }
}

/// A hash has as many bits as it should.
proof fn lemma_hash_small(v: int, order: nat)
    requires
        order == 14 || order == 15,
    ensures
        0 <= matchfinder::hash_of(v, order) < pow2(order),
        pow2(14) == 16384,
        pow2(15) == 32768,
{
    lemma2_to64();
    let x = (v * 0x1E35A7BD) % 0x1_0000_0000;
    assert(0 <= x < 0x1_0000_0000);
    if order == 14 {
        assert(x / 0x4_0000 < 16384);
    } else {
        assert(x / 0x2_0000 < 32768);
    }
}

/// The positions that a match covers are entered: for each of them the latest position under
/// its hash is itself or a later one of them, and the next search looks up the position behind
/// the match.
pub proof fn law_skip_enters(m: Memory, h: Seq<u8>, next: int, count: int, q: int)
    requires
        m.tab.len() == 65536,
        0 <= m.base <= next,
        m.hash == matchfinder::hash_of(fast_bytes::le32(h, next), 15),
        1 <= count <= 258,
        next + count + 5 <= h.len(),
        next <= q < next + count,
    ensures
        ({
            let a = HtMatchfinder::after_skip(m, h, next, count);
            &&& q <= pos_of(a, 2 * matchfinder::hash_of(fast_bytes::le32(h, q), 15)) < next + count
            &&& a.hash == matchfinder::hash_of(fast_bytes::le32(h, next + count), 15)
        }),
{
    let n = matchfinder::slides(m.base, next + count - 1);
    chain_memory::lemma_window(m.base, next + count - 1);
    chain_memory::lemma_slid(m.tab, m.base, n, 0);
    lemma2_to64();
    lemma_ht_entered(
        matchfinder::slid(m.tab, n),
        h,
        m.base + 32768 * n,
        next,
        count as nat,
        m.hash,
        15,
        q,
    );
}

/// Of the positions that a match covers, the faster table enters the first, the middle and
/// the last one: the latest position under the hash of each is itself or a later one of them.
pub proof fn law_fast_skip_enters(m: Memory, h: Seq<u8>, next: int, count: int, q: int)
    requires
        m.tab.len() == 32768,
        0 <= m.base <= next,
        m.hash == matchfinder::hash_of(fast_bytes::le32(h, next), 14),
        1 <= count <= 258,
        next + count + 5 <= h.len(),
        q == next || q == next + count / 2 || q == next + count - 1,
    ensures
        ({
            let a = FastHtMatchfinder::after_skip(m, h, next, count);
            &&& q <= pos_of(a, 2 * matchfinder::hash_of(fast_bytes::le32(h, q), 14)) < next + count
            &&& a.hash == matchfinder::hash_of(fast_bytes::le32(h, next + count), 14)
        }),
{
    let n = matchfinder::slides(m.base, next + count - 1);
    let base = m.base + 32768 * n;
    chain_memory::lemma_window(m.base, next + count - 1);
    chain_memory::lemma_slid(m.tab, m.base, n, 0);
    lemma2_to64();
    let tab = matchfinder::slid(m.tab, n);
    let mid = next + count / 2;
    let end = next + count - 1;
    lemma_hash_small(fast_bytes::le32(h, next), 14);
    lemma_hash_small(fast_bytes::le32(h, mid), 14);
    lemma_hash_small(fast_bytes::le32(h, end), 14);
    if count <= 3 {
        lemma_ht_entered(tab, h, base, next, count as nat, m.hash, 14, q);
    }
}

/// The positions that are entered one after the other stay the latest, unless a later one has
/// the same hash.
proof fn lemma_turbo_entered(
    tab: Seq<i16>,
    h: Seq<u8>,
    base: int,
    p: int,
    n: nat,
    hash: int,
    q: int,
)
    requires
        tab.len() == 32768,
        hash == matchfinder::hash_of(fast_bytes::le32(h, p), 15),
        p + n + 5 <= h.len(),
        -32768 <= p - base,
        p - base + n <= 32768,
        p <= q < p + n || {
            &&& q < p
            &&& q <= base + tab[matchfinder::hash_of(fast_bytes::le32(h, q), 15)] < p + n
        },
    ensures
        ({
            let t = turbo::entered(tab, h, base, p, n, hash);
            let e = base + t[matchfinder::hash_of(fast_bytes::le32(h, q), 15)];
            t.len() == tab.len() && q <= e < p + n
        }),
    decreases n,
{
    lemma_hash_small(fast_bytes::le32(h, p), 15);
    lemma_hash_small(fast_bytes::le32(h, q), 15);
    if n > 0 {
        let t = tab.update(hash, (p - base) as i16);
        lemma_turbo_entered(
            t,
            h,
            base,
            p + 1,
            (n - 1) as nat,
            turbo::next_hash(h, p, hash),
            q,
        );
    }
}

/// Of the positions that a match covers, the table with one entry for each hash enters the
/// first, the middle and the last one: the latest position under the hash of each is itself or
/// a later one of them.
pub proof fn law_turbo_skip_enters(m: Memory, h: Seq<u8>, next: int, count: int, q: int)
    requires
        m.tab.len() == 32768,
        0 <= m.base <= next,
        m.hash == matchfinder::hash_of(fast_bytes::le32(h, next), 15),
        1 <= count <= 258,
        next + count + 5 <= h.len(),
        q == next || q == next + count / 2 || q == next + count - 1,
    ensures
        ({
            let a = TurboMatchfinder::after_skip(m, h, next, count);
            &&& q <= pos_of(a, matchfinder::hash_of(fast_bytes::le32(h, q), 15)) < next + count
            &&& a.hash == matchfinder::hash_of(fast_bytes::le32(h, next + count), 15)
        }),
{
    let n = matchfinder::slides(m.base, next + count - 1);
    let base = m.base + 32768 * n;
    chain_memory::lemma_window(m.base, next + count - 1);
    chain_memory::lemma_slid(m.tab, m.base, n, 0);
    let tab = matchfinder::slid(m.tab, n);
    let mid = next + count / 2;
    let end = next + count - 1;
    lemma_hash_small(fast_bytes::le32(h, next), 15);
    lemma_hash_small(fast_bytes::le32(h, mid), 15);
    lemma_hash_small(fast_bytes::le32(h, end), 15);
    if count <= 3 {
        lemma_turbo_entered(tab, h, base, next, count as nat, m.hash, q);
    }
}

/// A parse goes on to its end, unless it has as many matches as it may have.
pub proof fn law_fast_run_ends<M: HashMatchfinder>(
    run: Run,
    h: Seq<u8>,
    end: int,
    max_matches: int,
    nice: int,
)
    ensures
        ({
            let r = fastest::run_to::<M>(run, h, end, max_matches, nice);
            r.next >= end || r.matches >= max_matches
        }),
    decreases
            (if run.next < end {
                end - run.next
            } else {
                0
            }),
{
    if run.next < end && run.matches < max_matches {
        law_fast_run_ends::<M>(fastest::step::<M>(run, h, nice), h, end, max_matches, nice);
    }
}

/// A block that is written with the static codes alone is stored only where it would take more
/// than one byte more than stored, or more than all of the room.
pub proof fn law_static_unless_long<M: HashMatchfinder>(
    s: Stage,
    s1: Stage,
    h: Seq<u8>,
    last: bool,
    room: int,
    nice: int,
)
    requires
        s.next < h.len(),
        static_turbo::next_stage::<M>(s, s1, h, last, room, nice),
        forall|run: Run|
            #[trigger] fastest::some_steps::<M>(
                fastest::block_start::<M>(s.tab, s.base, h, s.next, false),
                h,
                nice,
                run,
            ) ==> s.bits.len() + block::static_bits(
                h,
                s.next,
                run.its,
                last && progress::max_block_end(s.next, h.len() as int, 65535) == h.len(),
            ).len() <= 8 * room,
        ({
            let end = progress::max_block_end(s.next, h.len() as int, 65535);
            let run = fastest::whole_run::<M>(
                fastest::block_start::<M>(s.tab, s.base, h, s.next, false),
                h,
                end,
                nice,
            );
            let b = block::static_bits(h, s.next, run.its, last && end == h.len());
            (s.bits.len() + b.len()) as int / 8 - s.bits.len() as int / 8 <= pack::stored_size(
                end - s.next,
            ) + 1
        }),
    ensures
        ({
            let end = progress::max_block_end(s.next, h.len() as int, 65535);
            let run = fastest::whole_run::<M>(
                fastest::block_start::<M>(s.tab, s.base, h, s.next, false),
                h,
                end,
                nice,
            );
            s1.bits == s.bits + block::static_bits(h, s.next, run.its, last && end == h.len())
        }),
{
    let end = progress::max_block_end(s.next, h.len() as int, 65535);
    assert(static_turbo::allowance(end - s.next) == pack::stored_size(end - s.next) + 1);
}

} // verus!
