//! Hash table matchfinder with buckets of two entries and few updates while
//! skipping.

use crate::fast_bytes;
use crate::matchfinder;
use crate::matchfinder::ht;
use crate::matchfinder::ht::{bucket_match, empty_tab, enter_pos, enter_run};
use crate::matchfinder::{hash_at, matchfinder_init, slide_to, HashMatchfinder, Memory};
use vstd::arithmetic::power2::*;
use vstd::prelude::*;

verus! {

/// Number of hash bits.
pub const FAST_HT_MATCHFINDER_HASH_ORDER: u32 = 14;

/// Minimum match length.
pub const FAST_HT_MIN_MATCH_LEN: u32 = 4;

/// Number of bytes needed at a position to find a match.
pub const FAST_HT_REQUIRED_NBYTES: u32 = 5;

/// While skipping at most this many bytes, every position is remembered.
pub const SKIP_UPDATE_LIMIT: u32 = 3;

/// Matchfinder with two positions for each hash.
pub struct FastHtMatchfinder {
    /// Two entries for each hash, the later position first.
    pub hash_tab: Vec<i16>,
}

impl Clone for FastHtMatchfinder {
    fn clone(&self) -> (r: Self)
        ensures
            r.hash_tab@ == self.hash_tab@,
    {
        let t: Vec<i16> = self.hash_tab.clone();
        assert(t@ =~= self.hash_tab@);
        FastHtMatchfinder { hash_tab: t }
    }
}

impl FastHtMatchfinder {
    /// Create a new matchfinder.
    pub fn new() -> (r: Self)
        ensures
            forall|b: int, n: int| #[trigger] r.wf(b, n),
            r.table() == Seq::new(Self::table_size(), |k: int| matchfinder::MATCHFINDER_INITVAL),
    {
        let r: Self = FastHtMatchfinder { hash_tab: empty_tab(32768) };
        assert(r.table() =~= Seq::new(
            Self::table_size(),
            |k: int| matchfinder::MATCHFINDER_INITVAL,
        ));
        r
    }
}

impl HashMatchfinder for FastHtMatchfinder {
    open spec fn table(&self) -> Seq<i16> {
        self.hash_tab@
    }

    open spec fn table_size() -> nat {
        32768
    }

    open spec fn found_in(m: Memory, h: Seq<u8>, next: int, max: int, nice: int) -> (int, int) {
        let n = matchfinder::slides(m.base, next);
        let t = matchfinder::slid(m.tab, n);
        ht::found(
            h,
            m.base + 32768 * n,
            next,
            t[2 * m.hash] as int,
            t[2 * m.hash + 1] as int,
            max,
            nice,
        )
    }

    open spec fn after_search(m: Memory, h: Seq<u8>, next: int) -> Memory {
        let n = matchfinder::slides(m.base, next);
        let base = m.base + 32768 * n;
        Memory {
            tab: ht::searched(matchfinder::slid(m.tab, n), m.hash, base, next),
            base,
            hash: matchfinder::hash_of(fast_bytes::le32(h, next + 1), 14),
        }
    }

    open spec fn after_skip(m: Memory, h: Seq<u8>, next: int, count: int) -> Memory {
        if count == 0 || next + count + 5 > h.len() {
            m
        } else {
            let n = matchfinder::slides(m.base, next + count - 1);
            let base = m.base + 32768 * n;
            let tab = matchfinder::slid(m.tab, n);
            let mid = next + count / 2;
            let end = next + count - 1;
            Memory {
                tab: if count <= 3 {
                    ht::entered(tab, h, base, next, count as nat, m.hash, 14)
                } else {
                    ht::enter(
                        ht::enter(
                            ht::enter(tab, m.hash, next - base),
                            matchfinder::hash_of(fast_bytes::le32(h, mid), 14),
                            mid - base,
                        ),
                        matchfinder::hash_of(fast_bytes::le32(h, end), 14),
                        end - base,
                    )
                },
                base,
                hash: matchfinder::hash_of(fast_bytes::le32(h, next + count), 14),
            }
        }
    }

    open spec fn wf(&self, base: int, next: int) -> bool {
        &&& self.hash_tab@.len() == 32768
        &&& matchfinder::tab_ok(self.hash_tab@, base, next)
    }

    open spec fn order_of() -> nat {
        14
    }

    proof fn lemma_wf_later(&self, base: int, next: int, later: int) {
    }

    fn hash_order() -> (r: u32) {
        FAST_HT_MATCHFINDER_HASH_ORDER
    }

    fn init(&mut self) {
        matchfinder_init(self.hash_tab.as_mut_slice());
    }

    #[inline]
    fn longest_match(
        &mut self,
        input: &[u8],
        in_base_offset: &mut usize,
        in_next: usize,
        max_len: u32,
        nice_len: u32,
        next_hash: &mut u32,
    ) -> (r: (u32, u32))
    {
        proof {
            lemma2_to64();
        }
        bucket_match(
            &mut self.hash_tab,
            FAST_HT_MATCHFINDER_HASH_ORDER,
            input,
            in_base_offset,
            in_next,
            max_len,
            nice_len,
            next_hash,
        )
    }

    #[inline]
    fn skip_bytes(
        &mut self,
        input: &[u8],
        in_base_offset: &mut usize,
        in_next: usize,
        count: u32,
        next_hash: &mut u32,
    )
    {
        proof {
            lemma2_to64();
        }
        let in_end: usize = input.len();
        if count == 0 || in_end - in_next < 5 || in_end - in_next - 5 < count as usize {
            return;
        }
        let last: usize = in_next + count as usize - 1;
        slide_to(&mut self.hash_tab, in_base_offset, last);
        let base: usize = *in_base_offset;
        proof {
            assert(matchfinder::tab_ok(
                old(self).hash_tab@,
                *old(in_base_offset) as int,
                in_next as int,
            ));
            assert(matchfinder::tab_ok(self.hash_tab@, base as int, in_next as int));
        }
        if count <= SKIP_UPDATE_LIMIT {
            enter_run(
                &mut self.hash_tab,
                FAST_HT_MATCHFINDER_HASH_ORDER,
                input,
                base,
                in_next,
                count,
                next_hash,
            );
        } else {
            let cur_pos: i32 = (last - base) as i32 - (count as i32 - 1);
            let mid: u32 = count / 2;
            let ghost end = in_next + count;
            enter_pos(&mut self.hash_tab, *next_hash, cur_pos as i16);
            assert(matchfinder::tab_ok(self.hash_tab@, base as int, end));
            let mid_hash: u32 = hash_at(input, in_next + mid as usize, 14);
            enter_pos(&mut self.hash_tab, mid_hash, (cur_pos + mid as i32) as i16);
            assert(matchfinder::tab_ok(self.hash_tab@, base as int, end));
            let end_hash: u32 = hash_at(input, last, 14);
            enter_pos(&mut self.hash_tab, end_hash, (cur_pos + count as i32 - 1) as i16);
            assert(matchfinder::tab_ok(self.hash_tab@, base as int, end));
            *next_hash = hash_at(input, last + 1, 14);
        }
    }
}

} // verus!
