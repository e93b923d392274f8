//! Writing literals and matches as blocks.

use crate::compress::bitstream::OutputBitstream;
use crate::compress::block;
use crate::compress::block::{
    begin_block, choose_literal, choose_match, finish_block_best, init_static_codes, DeflateCodes,
    DeflateFreqs,
};
use crate::compress::emit;
use crate::compress::full_optimal::split;
use crate::compress::full_optimal::split::{
    blocksplit_lz77, calculate_block_size_dynamic, MAX_BLOCKS,
};
use crate::compress::full_optimal::store;
use crate::compress::full_optimal::store::{LitLen, Lz77Store};
use crate::compress::sequences;
use crate::compress::sequences::Sequence;
use crate::compress::uniqueness;
use vstd::prelude::*;

verus! {

/// Where the block after the first `k` points ends.
pub open spec fn cut(points: Seq<usize>, n: int, k: int) -> int {
    if k <= 0 {
        0
    } else if k <= points.len() {
        points[k - 1] as int
    } else {
        n
    }
}

/// The literals and matches of the block behind the first `k` points.
pub open spec fn part(ls: Seq<LitLen>, points: Seq<usize>, k: int) -> Seq<LitLen> {
    ls.subrange(cut(points, ls.len() as int, k), cut(points, ls.len() as int, k + 1))
}

/// The cost of the first `k` blocks that the points make.
pub open spec fn split_cost(ls: Seq<LitLen>, points: Seq<usize>, k: int) -> int
    decreases k,
{
    if k <= 0 {
        0
    } else {
        split_cost(ls, points, k - 1) + split::part_cost(part(ls, points, k - 1))
    }
}

/// The total block cost for a given set of split points.
pub fn calculate_split_cost(lz77: &Lz77Store, splitpoints: &Vec<usize>) -> (cost: u64)
    requires
        lz77.litlens@.len() < 0x3f_ffff,
        split::all_plain(lz77.litlens@),
        split::is_split(splitpoints@, lz77.litlens@.len() as int),
        splitpoints@.len() < 0x1_0000,
    ensures
        cost == split_cost(lz77.litlens@, splitpoints@, splitpoints@.len() as int + 1),
{
    let ghost ls = lz77.litlens@;
    let ghost n = ls.len() as int;
    let size: usize = lz77.size();
    let mut cost: u64 = 0;
    let mut last: usize = 0;
    let mut k: usize = 0;
    while k < splitpoints.len()
        invariant
            ls == lz77.litlens@,
            n == ls.len(),
            size == n,
            n < 0x3f_ffff,
            split::all_plain(ls),
            split::is_split(splitpoints@, n),
            splitpoints@.len() < 0x1_0000,
            k <= splitpoints@.len(),
            last == cut(splitpoints@, n, k as int),
            last <= size,
            cost == split_cost(ls, splitpoints@, k as int),
            cost <= k * 0x4000_0000_0000,
        decreases splitpoints@.len() - k,
    {
        let sp: usize = splitpoints[k];
        proof {
            if k > 0 {
                assert(splitpoints@[k - 1] < splitpoints@[k as int]);
            }
        }
        cost = cost + calculate_block_size_dynamic(lz77, last, sp);
        last = sp;
        k = k + 1;
    }
    cost + calculate_block_size_dynamic(lz77, last, size)
}

/// Literals and matches behind others.
pub proof fn lemma_stands_concat(a: Seq<LitLen>, b: Seq<LitLen>, h: Seq<u8>, base: int)
    requires
        store::stands_for(a, h, base),
        store::stands_for(b, h, store::end_of(a, base)),
    ensures
        store::stands_for(a + b, h, base),
        store::end_of(a + b, base) == store::end_of(b, store::end_of(a, base)),
    decreases b.len(),
{
    if b.len() == 0 {
        assert(a + b =~= a);
        assert(store::items_of(b) =~= Seq::empty());
    } else {
        let d = b.drop_last();
        lemma_stands_concat(a, d, h, base);
        assert(a + b =~= (a + d).push(b.last()));
        store::lemma_push(a + d, b.last(), h, base);
        assert(b =~= d.push(b.last()));
        store::lemma_push(d, b.last(), h, store::end_of(a, base));
    }
}

/// Write the literals and matches from `from` to `to` as a block.
pub fn flush_lz77_block(
    os: &mut OutputBitstream<'_>,
    input: &[u8],
    block_start: usize,
    lz77: &Lz77Store,
    from: usize,
    to: usize,
    is_final_block: bool,
) -> (end: usize)
    requires
        old(os).flushed(),
        input@.len() < 0x3f_ffff,
        from <= to <= lz77.litlens@.len(),
        store::stands_for(lz77.litlens@, input@, 0),
        store::end_of(lz77.litlens@.take(from as int), 0) == block_start,
    ensures
        final(os).flushed(),
        final(os).buf@.len() == old(os).buf@.len(),
        final(final(os).buf)@ == final(old(os).buf)@,
        old(os).overflow ==> final(os).overflow,
        end == store::end_of(lz77.litlens@.take(to as int), 0),
        block_start <= end <= input@.len(),
        !final(os).overflow ==> emit::extends(
            old(os).bits(),
            input@.take(block_start as int),
            final(os).bits(),
            input@.take(end as int),
            is_final_block,
        ),
        !final(os).overflow ==> block::coded_with(
            old(os).bits(),
            final(os).bits(),
            input@,
            block_start as int,
            end - block_start,
            store::items_of(lz77.litlens@.subrange(from as int, to as int)),
            is_final_block,
            false,
        ),
        final(os).overflow && !old(os).overflow ==> block::misfits(
            old(os).bits(),
            old(os).buf@.len() as int,
            input@,
            block_start as int,
            end - block_start,
            store::items_of(lz77.litlens@.subrange(from as int, to as int)),
            is_final_block,
            false,
        ),
{
    let ghost h = input@;
    let ghost ls = lz77.litlens@;
    let ghost b = block_start as int;
    let mut freqs: DeflateFreqs = DeflateFreqs::default();
    let mut seqs: Vec<Sequence> = Vec::new();
    begin_block(&mut freqs, &mut seqs, Ghost(h), Ghost(b));
    let mut pos: usize = block_start;
    let mut k: usize = from;
    proof {
        store::lemma_take(ls, h, 0, from as int);
        store::lemma_within(ls.take(from as int), h, 0);
        assert(store::items_of(ls.subrange(from as int, from as int)) =~= Seq::empty());
    }
    while k < to
        invariant
            h == input@,
            ls == lz77.litlens@,
            b == block_start,
            h.len() < 0x3f_ffff,
            from <= k <= to <= ls.len(),
            store::stands_for(ls, h, 0),
            block::parsed(h, b, pos as int, seqs@, freqs),
            sequences::items_of(seqs@) == store::items_of(ls.subrange(from as int, k as int)),
            pos == store::end_of(ls.take(k as int), 0),
            block_start <= pos <= h.len(),
        decreases to - k,
    {
        proof {
            store::lemma_take(ls, h, 0, k as int);
            store::lemma_take(ls, h, 0, k + 1);
            assert(ls.take(k + 1) =~= ls.take(k as int).push(ls[k as int]));
            store::lemma_push(ls.take(k as int), ls[k as int], h, 0);
            store::lemma_within(ls.take(k + 1), h, 0);
            let sub = ls.subrange(from as int, k as int);
            assert(ls.subrange(from as int, k + 1) =~= sub.push(ls[k as int]));
            store::lemma_push(sub, ls[k as int], h, 0);
        }
        match lz77.litlens[k] {
            LitLen::Literal(lit) => {
                choose_literal(
                    &mut freqs,
                    lit as u8,
                    &mut seqs,
                    Ghost(h),
                    Ghost(b),
                    Ghost(pos as int),
                );
                pos = pos + 1;
            },
            LitLen::LengthDist(len, dist) => {
                choose_match(
                    &mut freqs,
                    len as u32,
                    dist as u32,
                    &mut seqs,
                    Ghost(h),
                    Ghost(b),
                    Ghost(pos as int),
                );
                pos = pos + len as usize;
            },
        }
        k = k + 1;
    }
    let mut codes: DeflateCodes = DeflateCodes::default();
    let mut static_freqs: DeflateFreqs = DeflateFreqs::default();
    let mut static_codes: DeflateCodes = DeflateCodes::default();
    init_static_codes(&mut static_freqs, &mut static_codes);
    finish_block_best(
        os,
        input,
        block_start,
        pos - block_start,
        &seqs,
        &mut freqs,
        &mut codes,
        &static_codes,
        is_final_block,
    );
    pos
}

/// The `k`th of the blocks that the points make of literals and matches that stand for the
/// data is written behind the bits `b0`; the last of them may end the stream.
pub open spec fn part_coded(
    b0: Seq<bool>,
    b1: Seq<bool>,
    h: Seq<u8>,
    ls: Seq<LitLen>,
    points: Seq<usize>,
    k: int,
    last: bool,
) -> bool {
    let n = ls.len() as int;
    let from = store::end_of(ls.take(cut(points, n, k)), 0);
    let to = store::end_of(ls.take(cut(points, n, k + 1)), 0);
    block::coded_with(
        b0,
        b1,
        h,
        from,
        to - from,
        store::items_of(part(ls, points, k)),
        last && k == points.len(),
        false,
    )
}

/// The first `k` of the blocks that the points make are written, one behind the other, each
/// in the cheapest way with the codes for its symbols, whose lengths are packed in the
/// cheapest way.
pub open spec fn parts_coded(
    b0: Seq<bool>,
    b1: Seq<bool>,
    h: Seq<u8>,
    ls: Seq<LitLen>,
    points: Seq<usize>,
    k: int,
    last: bool,
) -> bool
    decreases k,
{
    if k <= 0 {
        b1 == b0
    } else {
        exists|b: Seq<bool>|
            parts_coded(b0, b, h, ls, points, k - 1, last) && #[trigger] part_coded(
                b,
                b1,
                h,
                ls,
                points,
                k - 1,
                last,
            )
    }
}

/// One more block.
proof fn lemma_parts_coded(
    b0: Seq<bool>,
    b: Seq<bool>,
    b1: Seq<bool>,
    h: Seq<u8>,
    ls: Seq<LitLen>,
    points: Seq<usize>,
    k: int,
    last: bool,
)
    requires
        0 <= k,
        parts_coded(b0, b, h, ls, points, k, last),
        part_coded(b, b1, h, ls, points, k, last),
    ensures
        parts_coded(b0, b1, h, ls, points, k + 1, last),
{
    let m = k + 1;
    assert(part_coded(b, b1, h, ls, points, m - 1, last));
}

/// The bits `b0` and the first of the blocks that the points make take more than `room`
/// bytes.
#[verifier::opaque]
pub open spec fn parts_spill(
    b0: Seq<bool>,
    h: Seq<u8>,
    ls: Seq<LitLen>,
    points: Seq<usize>,
    last: bool,
    room: int,
) -> bool {
    exists|b1: Seq<bool>, k: int|
        {
            &&& 0 < k <= points.len() + 1
            &&& #[trigger] parts_coded(b0, b1, h, ls, points, k, last)
            &&& block::too_long(b1, room)
        }
}

/// The next block does not fit.
proof fn lemma_parts_spill(
    b0: Seq<bool>,
    b: Seq<bool>,
    h: Seq<u8>,
    ls: Seq<LitLen>,
    points: Seq<usize>,
    k: int,
    last: bool,
    room: int,
)
    requires
        0 <= k <= points.len(),
        parts_coded(b0, b, h, ls, points, k, last),
        ({
            let n = ls.len() as int;
            let from = store::end_of(ls.take(cut(points, n, k)), 0);
            let to = store::end_of(ls.take(cut(points, n, k + 1)), 0);
            block::misfits(
                b,
                room,
                h,
                from,
                to - from,
                store::items_of(part(ls, points, k)),
                last && k == points.len(),
                false,
            )
        }),
    ensures
        parts_spill(b0, h, ls, points, last, room),
{
    reveal(block::misfits);
    reveal(parts_spill);
    let n = ls.len() as int;
    let from = store::end_of(ls.take(cut(points, n, k)), 0);
    let to = store::end_of(ls.take(cut(points, n, k + 1)), 0);
    let its = store::items_of(part(ls, points, k));
    let fin = last && k == points.len();
    let b1 = choose|b1: Seq<bool>|
        #[trigger] block::coded_with(b, b1, h, from, to - from, its, fin, false)
            && block::too_long(b1, room);
    assert(part_coded(b, b1, h, ls, points, k, last));
    lemma_parts_coded(b0, b, b1, h, ls, points, k, last);
}

/// Write literals and matches that stand for all of the input as the blocks that the
/// points make.
#[verifier::rlimit(30)]
pub fn write_split(
    os: &mut OutputBitstream<'_>,
    input: &[u8],
    lz77: &Lz77Store,
    splitpoints: &Vec<usize>,
    is_final: bool,
)
    requires
        old(os).flushed(),
        input@.len() < 0x3f_ffff,
        store::stands_for(lz77.litlens@, input@, 0),
        store::end_of(lz77.litlens@, 0) == input@.len(),
        split::is_split(splitpoints@, lz77.litlens@.len() as int),
    ensures
        final(os).flushed(),
        final(os).buf@.len() == old(os).buf@.len(),
        final(final(os).buf)@ == final(old(os).buf)@,
        old(os).overflow ==> final(os).overflow,
        !final(os).overflow ==> emit::extends(
            old(os).bits(),
            Seq::empty(),
            final(os).bits(),
            input@,
            is_final,
        ),
        !final(os).overflow ==> parts_coded(
            old(os).bits(),
            final(os).bits(),
            input@,
            lz77.litlens@,
            splitpoints@,
            splitpoints@.len() as int + 1,
            is_final,
        ),
        final(os).overflow && !old(os).overflow ==> parts_spill(
            old(os).bits(),
            input@,
            lz77.litlens@,
            splitpoints@,
            is_final,
            old(os).buf@.len() as int,
        ),
{
    let ghost h = input@;
    let ghost ls = lz77.litlens@;
    let ghost o0 = *os;
    let ghost fin = final(os.buf)@;
    let size: usize = lz77.size();
    let mut last: usize = 0;
    let mut pos: usize = 0;
    let mut k: usize = 0;
    proof {
        assert(ls.take(0) =~= Seq::empty());
        assert(store::items_of(ls.take(0)) =~= Seq::empty());
        assert(h.take(0) =~= Seq::empty());
        emit::lemma_extends_nothing(os.bits(), h.take(0));
    }
    while k < splitpoints.len()
        invariant
            h == input@,
            ls == lz77.litlens@,
            size == ls.len(),
            o0 == *old(os),
            fin == final(old(os).buf)@,
            final(os.buf)@ == fin,
            h.len() < 0x3f_ffff,
            store::stands_for(ls, h, 0),
            split::is_split(splitpoints@, size as int),
            k <= splitpoints@.len(),
            last == cut(splitpoints@, size as int, k as int),
            last <= size,
            pos == store::end_of(ls.take(last as int), 0),
            os.flushed(),
            os.buf@.len() == o0.buf@.len(),
            o0.overflow ==> os.overflow,
            !os.overflow ==> emit::extends(o0.bits(), h.take(0), os.bits(), h.take(pos as int), false),
            !os.overflow ==> parts_coded(
                o0.bits(),
                os.bits(),
                h,
                ls,
                splitpoints@,
                k as int,
                is_final,
            ),
            os.overflow && !o0.overflow ==> parts_spill(
                o0.bits(),
                h,
                ls,
                splitpoints@,
                is_final,
                o0.buf@.len() as int,
            ),
        decreases splitpoints@.len() - k,
    {
        let sp: usize = splitpoints[k];
        proof {
            if k > 0 {
                assert(splitpoints@[k - 1] < splitpoints@[k as int]);
            }
        }
        let ghost o1 = *os;
        let ghost p1 = pos;
        pos = flush_lz77_block(os, input, pos, lz77, last, sp, false);
        proof {
            if !os.overflow {
                emit::lemma_extends_trans(
                    o0.bits(),
                    h.take(0),
                    o1.bits(),
                    h.take(p1 as int),
                    os.bits(),
                    h.take(pos as int),
                    false,
                );
                lemma_parts_coded(
                    o0.bits(),
                    o1.bits(),
                    os.bits(),
                    h,
                    ls,
                    splitpoints@,
                    k as int,
                    is_final,
                );
            } else if !o1.overflow {
                lemma_parts_spill(
                    o0.bits(),
                    o1.bits(),
                    h,
                    ls,
                    splitpoints@,
                    k as int,
                    is_final,
                    o0.buf@.len() as int,
                );
            }
        }
        last = sp;
        k = k + 1;
    }
    let ghost o1 = *os;
    let ghost p1 = pos;
    pos = flush_lz77_block(os, input, pos, lz77, last, size, is_final);
    proof {
        assert(ls.take(size as int) =~= ls);
        assert(h.take(pos as int) =~= h);
        if !os.overflow {
            emit::lemma_extends_trans(
                o0.bits(),
                h.take(0),
                o1.bits(),
                h.take(p1 as int),
                os.bits(),
                h.take(pos as int),
                is_final,
            );
            lemma_parts_coded(
                o0.bits(),
                o1.bits(),
                os.bits(),
                h,
                ls,
                splitpoints@,
                k as int,
                is_final,
            );
        } else if !o1.overflow {
            lemma_parts_spill(
                o0.bits(),
                o1.bits(),
                h,
                ls,
                splitpoints@,
                k as int,
                is_final,
                o0.buf@.len() as int,
            );
        }
    }
}

/// The parses of the blocks stand for the input.
pub open spec fn blocks_stand(stores: Seq<Lz77Store>, input: Seq<u8>, bounds: Seq<usize>) -> bool {
    &&& bounds.len() == stores.len() + 1
    &&& bounds[0] == 0
    &&& bounds.last() == input.len()
    &&& forall|k: int|
        0 <= k < stores.len() ==> {
            &&& store::stands_for((#[trigger] stores[k]).litlens@, input, bounds[k] as int)
            &&& store::end_of(stores[k].litlens@, bounds[k] as int) == bounds[k + 1]
            &&& bounds[k] < bounds[k + 1]
        }
}

/// The literals and matches of the first `k` stores.
pub open spec fn joined(stores: Seq<Lz77Store>, k: int) -> Seq<LitLen>
    decreases k,
{
    if k <= 0 {
        Seq::empty()
    } else {
        joined(stores, k - 1) + stores[k - 1].litlens@
    }
}

/// The points between the stores.
pub open spec fn seams(stores: Seq<Lz77Store>) -> Seq<usize> {
    Seq::new((stores.len() - 1) as nat, |k: int| joined(stores, k + 1).len() as usize)
}

/// The points by which the literals and matches of the stores are split: where there are
/// more than two stores, those of another split, if that one is cheaper.
pub open spec fn chosen_points(stores: Seq<Lz77Store>) -> Seq<usize> {
    let ls = joined(stores, stores.len() as int);
    let one = seams(stores);
    let two = split::split_points(ls, MAX_BLOCKS as int);
    if one.len() > 1 && split_cost(ls, two, two.len() as int + 1) < split_cost(ls, one, one.len() as int + 1) {
        two
    } else {
        one
    }
}

/// Write the parses of consecutive blocks of the input. The literals and matches of all
/// of them are split once more where there are more than two blocks, and the cheaper
/// split is written.
#[verifier::rlimit(60)]
pub fn write_blocks(
    os: &mut OutputBitstream<'_>,
    input: &[u8],
    bounds: &Vec<usize>,
    stores: &Vec<Lz77Store>,
    is_final: bool,
)
    requires
        old(os).flushed(),
        0 < input@.len() < 0x3f_ffff,
        0 < stores@.len() < 0x1_0000,
        blocks_stand(stores@, input@, bounds@),
    ensures
        final(os).flushed(),
        final(os).buf@.len() == old(os).buf@.len(),
        final(final(os).buf)@ == final(old(os).buf)@,
        old(os).overflow ==> final(os).overflow,
        !final(os).overflow ==> emit::extends(
            old(os).bits(),
            Seq::empty(),
            final(os).bits(),
            input@,
            is_final,
        ),
        !final(os).overflow ==> parts_coded(
            old(os).bits(),
            final(os).bits(),
            input@,
            joined(stores@, stores@.len() as int),
            chosen_points(stores@),
            chosen_points(stores@).len() as int + 1,
            is_final,
        ),
        final(os).overflow && !old(os).overflow ==> parts_spill(
            old(os).bits(),
            input@,
            joined(stores@, stores@.len() as int),
            chosen_points(stores@),
            is_final,
            old(os).buf@.len() as int,
        ),
{
    let ghost h = input@;
    let mut combined: Lz77Store = Lz77Store::new();
    let mut points: Vec<usize> = Vec::new();
    let mut k: usize = 0;
    while k < stores.len()
        invariant
            h == input@,
            blocks_stand(stores@, h, bounds@),
            k <= stores@.len(),
            store::stands_for(combined.litlens@, h, 0),
            store::end_of(combined.litlens@, 0) == bounds@[k as int],
            combined.litlens@ == joined(stores@, k as int),
            forall|j: int| 0 <= j < points@.len() ==> #[trigger] points@[j] == seams(stores@)[j],
            points@.len() == if k < stores@.len() {
                k as int
            } else {
                stores@.len() - 1
            },
            k > 0 ==> combined.litlens@.len() > 0,
            forall|j: int|
                0 <= j < points@.len() ==> 0 < #[trigger] points@[j] && (if k < stores@.len() {
                    points@[j] <= combined.litlens@.len()
                } else {
                    points@[j] < combined.litlens@.len()
                }),
            forall|i: int, j: int|
                0 <= i < j < points@.len() ==> #[trigger] points@[i] < #[trigger] points@[j],
        decreases stores@.len() - k,
    {
        let ghost c0 = combined.litlens@;
        proof {
            let s = stores@[k as int].litlens@;
            lemma_stands_concat(c0, s, h, 0);
            if s.len() == 0 {
                assert(store::items_of(s) =~= Seq::empty());
            }
        }
        combined.append(&stores[k]);
        if k + 1 < stores.len() {
            points.push(combined.size());
        }
        k = k + 1;
    }
    let ghost ls = combined.litlens@;
    proof {
        split::lemma_plain(ls, h, 0);
        store::lemma_within(ls, h, 0);
        assert(points@ =~= seams(stores@));
    }
    if points.len() > 1 {
        let points2: Vec<usize> = blocksplit_lz77(&combined, MAX_BLOCKS);
        let cost1: u64 = calculate_split_cost(&combined, &points);
        let cost2: u64 = calculate_split_cost(&combined, &points2);
        if cost2 < cost1 {
            points = points2;
        }
    }
    write_split(os, input, &combined, &points, is_final);
}

/// Literals and matches are written in one way as the blocks that points make.
pub proof fn law_parts_once(
    b0: Seq<bool>,
    b1: Seq<bool>,
    b2: Seq<bool>,
    h: Seq<u8>,
    ls: Seq<LitLen>,
    points: Seq<usize>,
    k: int,
    last: bool,
)
    requires
        parts_coded(b0, b1, h, ls, points, k, last),
        parts_coded(b0, b2, h, ls, points, k, last),
    ensures
        b1 == b2,
    decreases k,
{
    if k > 0 {
        let x = choose|b: Seq<bool>|
            parts_coded(b0, b, h, ls, points, k - 1, last) && #[trigger] part_coded(
                b,
                b1,
                h,
                ls,
                points,
                k - 1,
                last,
            );
        let y = choose|b: Seq<bool>|
            parts_coded(b0, b, h, ls, points, k - 1, last) && #[trigger] part_coded(
                b,
                b2,
                h,
                ls,
                points,
                k - 1,
                last,
            );
        law_parts_once(b0, x, y, h, ls, points, k - 1, last);
        let n = ls.len() as int;
        let from = store::end_of(ls.take(cut(points, n, k - 1)), 0);
        let to = store::end_of(ls.take(cut(points, n, k)), 0);
        uniqueness::law_block_once(
            x,
            b1,
            b2,
            h,
            from,
            to - from,
            store::items_of(part(ls, points, k - 1)),
            last && k - 1 == points.len(),
            false,
        );
    }
}

/// The split that is written costs no more than the blocks as they came, and no more than
/// another split of them.
pub proof fn law_cheaper_split(stores: Seq<Lz77Store>)
    requires
        0 < stores.len(),
    ensures
        ({
            let ls = joined(stores, stores.len() as int);
            let p = chosen_points(stores);
            let two = split::split_points(ls, MAX_BLOCKS as int);
            &&& split_cost(ls, p, p.len() as int + 1) <= split_cost(
                ls,
                seams(stores),
                stores.len() as int,
            )
            &&& stores.len() > 2 ==> split_cost(ls, p, p.len() as int + 1) <= split_cost(
                ls,
                two,
                two.len() as int + 1,
            )
        }),
{
    assert(seams(stores).len() + 1 == stores.len());
}

} // verus!
