//! What DEFLATE streams look like.
//!
//! Here a stream is described from the writer's side: which blocks it has, which codes they
//! declare, which literals and matches they hold, and which bits stand for these. The laws
//! say that decoding a stream that is described so gives what it stands for, and that
//! nothing else decodes.

use crate::bits;
use crate::codes;
use crate::constants::{
    DEFLATE_LENGTH_BASE, DEFLATE_LENGTH_EXTRA_BITS, DEFLATE_OFFSET_BASE, DEFLATE_OFFSET_EXTRA_BITS,
    DEFLATE_PRECODE_LENS_PERMUTATION,
};
use crate::container;
use crate::stream;
use vstd::arithmetic::power2::*;
use vstd::prelude::*;

verus! {

/// The number `v` stands at `p` in `n` bits, the least significant first.
pub open spec fn number_at(b: Seq<bool>, p: int, n: nat, v: int) -> bool
    decreases n,
{
    if n == 0 {
        v == 0
    } else {
        0 <= p < b.len() && b[p] == (v % 2 == 1) && number_at(b, p + 1, (n - 1) as nat, v / 2)
    }
}

/// The number `v` stands at `p` in `n` bits, the most significant first.
pub open spec fn word_at(b: Seq<bool>, p: int, n: nat, v: int) -> bool
    decreases n,
{
    if n == 0 {
        v == 0
    } else {
        0 <= p + n - 1 < b.len() && b[p + n - 1] == (v % 2 == 1) && word_at(
            b,
            p,
            (n - 1) as nat,
            v / 2,
        )
    }
}

/// How many of the first `n` symbols have codewords of `l` bits.
pub open spec fn count(lens: Seq<u8>, l: int, n: int) -> int
    decreases n,
{
    if n <= 0 {
        0
    } else {
        count(lens, l, n - 1) + if lens[n - 1] == l {
            1int
        } else {
            0
        }
    }
}

/// The first codeword of `l` bits: twice the one after the last codeword of one bit less.
pub open spec fn first_code(lens: Seq<u8>, l: int) -> int
    decreases l,
{
    if l <= 1 {
        0
    } else {
        2 * (first_code(lens, l - 1) + count(lens, l - 1, lens.len() as int))
    }
}

/// The codeword of a symbol: those of one length are numbered in the order of the symbols.
pub open spec fn code_of(lens: Seq<u8>, s: int) -> int {
    first_code(lens, lens[s] as int) + count(lens, lens[s] as int, s)
}

/// How much of the space of codewords the first `n` symbols take; all of it is 2 to the
/// power of 15.
pub open spec fn space(lens: Seq<u8>, n: int) -> int
    decreases n,
{
    if n <= 0 {
        0
    } else {
        space(lens, n - 1) + if lens[n - 1] == 0 {
            0
        } else {
            pow2((15 - lens[n - 1]) as nat) as int
        }
    }
}

/// The codewords take all of the space.
pub open spec fn full(lens: Seq<u8>) -> bool {
    space(lens, lens.len() as int) == 32768
}

/// There is no codeword.
pub open spec fn no_code(lens: Seq<u8>) -> bool {
    forall|s: int| 0 <= s < lens.len() ==> #[trigger] lens[s] == 0
}

/// There is one codeword, of one bit.
pub open spec fn one_code(lens: Seq<u8>, s: int) -> bool {
    &&& 0 <= s < lens.len()
    &&& lens[s] == 1
    &&& forall|t: int| 0 <= t < lens.len() && t != s ==> #[trigger] lens[t] == 0
}

/// The codes that a block may declare: those without a gap, the one without codewords, and
/// those with one codeword of one bit.
pub open spec fn allowed(lens: Seq<u8>) -> bool {
    &&& forall|s: int| 0 <= s < lens.len() ==> #[trigger] lens[s] <= 15
    &&& full(lens) || no_code(lens) || exists|s: int| one_code(lens, s)
}

/// The number of bits of a symbol.
pub open spec fn sym_len(lens: Seq<u8>, s: int) -> int {
    if no_code(lens) {
        1
    } else {
        lens[s] as int
    }
}

/// The symbol `s` stands at `p`. The one codeword of a code may be either bit, and where
/// there is none, any bit stands for the first symbol.
pub open spec fn symbol_at(b: Seq<bool>, lens: Seq<u8>, p: int, s: int) -> bool {
    &&& 0 <= p
    &&& 0 <= s < lens.len()
    &&& p + sym_len(lens, s) <= b.len()
    &&& {
        ||| lens[s] > 0 && word_at(b, p, lens[s] as nat, code_of(lens, s))
        ||| one_code(lens, s)
        ||| no_code(lens) && s == 0
    }
}

/// The number of extra bits of a length symbol.
pub open spec fn length_extra(s: int) -> nat {
    if s < 265 || s > 284 {
        0
    } else {
        ((s - 261) / 4) as nat
    }
}

/// The length for a symbol and the value of its extra bits.
pub open spec fn length_of(s: int, x: int) -> int {
    if s < 265 {
        s - 254
    } else if s > 284 {
        258
    } else {
        3 + (4 + (s - 1) % 4) * pow2(length_extra(s)) + x
    }
}

/// The number of extra bits of a distance symbol.
pub open spec fn distance_extra(s: int) -> nat {
    if s < 4 {
        0
    } else if s > 29 {
        13
    } else {
        (s / 2 - 1) as nat
    }
}

/// The distance for a symbol and the value of its extra bits.
pub open spec fn distance_of(s: int, x: int) -> int {
    if s < 4 {
        s + 1
    } else if s > 29 {
        24577 + x
    } else {
        1 + (2 + s % 2) * pow2(distance_extra(s)) + x
    }
}

/// A literal, or a match: its length symbol and its distance symbol, each with the value of
/// its extra bits.
pub enum Item {
    Byte { v: u8 },
    Copy { ls: int, lx: int, os: int, ox: int },
}

/// The number of bits of an item.
pub open spec fn item_len(ll: Seq<u8>, ol: Seq<u8>, it: Item) -> int {
    match it {
        Item::Byte { v } => sym_len(ll, v as int),
        Item::Copy { ls, lx, os, ox } => sym_len(ll, ls) + length_extra(ls) + sym_len(ol, os)
            + distance_extra(os),
    }
}

/// The item stands at `p`.
pub open spec fn item_at(b: Seq<bool>, ll: Seq<u8>, ol: Seq<u8>, p: int, it: Item) -> bool {
    match it {
        Item::Byte { v } => symbol_at(b, ll, p, v as int),
        Item::Copy { ls, lx, os, ox } => {
            let p1 = p + sym_len(ll, ls);
            let p2 = p1 + length_extra(ls);
            let p3 = p2 + sym_len(ol, os);
            &&& ls > 256
            &&& symbol_at(b, ll, p, ls)
            &&& number_at(b, p1, length_extra(ls), lx)
            &&& symbol_at(b, ol, p2, os)
            &&& number_at(b, p3, distance_extra(os), ox)
        },
    }
}

/// A match does not reach back behind the beginning of the output.
pub open spec fn item_fits(out: Seq<u8>, it: Item) -> bool {
    match it {
        Item::Byte { v } => true,
        Item::Copy { ls, lx, os, ox } => distance_of(os, ox) <= out.len(),
    }
}

/// The output after an item: a match repeats the last bytes, as many as its distance, again
/// and again until it has its length.
pub open spec fn played(out: Seq<u8>, it: Item) -> Seq<u8> {
    match it {
        Item::Byte { v } => out.push(v),
        Item::Copy { ls, lx, os, ox } => {
            let d = distance_of(os, ox);
            out + Seq::new(length_of(ls, lx) as nat, |i: int| out[out.len() - d + i % d])
        },
    }
}

/// The number of bits of items.
pub open spec fn items_len(ll: Seq<u8>, ol: Seq<u8>, its: Seq<Item>) -> int
    decreases its.len(),
{
    if its.len() == 0 {
        0
    } else {
        item_len(ll, ol, its[0]) + items_len(ll, ol, its.drop_first())
    }
}

/// The items stand at `p`, one after the other, and fit behind the output.
pub open spec fn items_at(
    b: Seq<bool>,
    ll: Seq<u8>,
    ol: Seq<u8>,
    p: int,
    its: Seq<Item>,
    out: Seq<u8>,
) -> bool
    decreases its.len(),
{
    its.len() == 0 || {
        &&& item_at(b, ll, ol, p, its[0])
        &&& item_fits(out, its[0])
        &&& items_at(
            b,
            ll,
            ol,
            p + item_len(ll, ol, its[0]),
            its.drop_first(),
            played(out, its[0]),
        )
    }
}

/// The output after items.
pub open spec fn all_played(out: Seq<u8>, its: Seq<Item>) -> Seq<u8>
    decreases its.len(),
{
    if its.len() == 0 {
        out
    } else {
        all_played(played(out, its[0]), its.drop_first())
    }
}

/// Bits that are a number read as that number.
pub proof fn lemma_number(b: Seq<bool>, p: int, n: nat, v: int)
    requires
        0 <= p,
    ensures
        number_at(b, p, n, v) ==> n == 0 || p + n <= b.len(),
        number_at(b, p, n, v) ==> bits::le_val(b, p, n) == v && 0 <= v < pow2(n),
        p + n <= b.len() && v == bits::le_val(b, p, n) ==> number_at(b, p, n, v),
    decreases n,
{
    if n == 0 {
        lemma2_to64();
    } else {
        lemma_number(b, p + 1, (n - 1) as nat, v / 2);
        bits::lemma_le_bound(b, p + 1, (n - 1) as nat);
        lemma_pow2_unfold(n);
        let y = bits::le_val(b, p + 1, (n - 1) as nat);
        let c = bits::bit(b, p);
        assert((c + 2 * y) / 2 == y && (c + 2 * y) % 2 == c);
    }
}

/// Bits that are a word read as its number.
proof fn lemma_word(b: Seq<bool>, p: int, n: nat, v: int)
    requires
        0 <= p,
    ensures
        word_at(b, p, n, v) ==> bits::be_val(b, p, n) == v,
        p + n <= b.len() && v == bits::be_val(b, p, n) ==> word_at(b, p, n, v),
    decreases n,
{
    if n > 0 {
        let m = (n - 1) as nat;
        lemma_word(b, p, m, v / 2);
        bits::lemma_be_split(b, p, m, 1);
        assert(m + 1 == n);
        lemma2_to64();
        let y = bits::be_val(b, p, m);
        let c = bits::bit(b, p + m);
        assert(bits::be_val(b, p + m, 1) == c) by {
            reveal_with_fuel(bits::be_val, 2);
        }
        assert(bits::be_val(b, p, n) == y * 2 + c);
        assert((2 * y + c) / 2 == y && (2 * y + c) % 2 == c);
    }
}

/// The space that codewords take is the total of their shares.
proof fn lemma_space(lens: Seq<u8>, n: nat)
    requires
        n <= lens.len(),
        codes::bounded(lens),
    ensures
        space(lens, n as int) == codes::mass(lens, 16, 0, n),
    decreases n,
{
    if n > 0 {
        lemma_space(lens, (n - 1) as nat);
    }
}

/// The shares before a place, counted in codewords of its length.
proof fn lemma_place_code(lens: Seq<u8>, l: int, s: int)
    requires
        codes::bounded(lens),
        1 <= l <= 15,
        0 <= s <= lens.len(),
    ensures
        codes::mass(lens, l, s, lens.len()) == (first_code(lens, l) + count(lens, l, s))
            * codes::weight(l),
    decreases l, s,
{
    let n = lens.len();
    let w = codes::weight(l);
    if s > 0 {
        lemma_place_code(lens, l, s - 1);
        codes::lemma_mass_step(lens, l, s - 1, n);
        let a = first_code(lens, l) + count(lens, l, s - 1);
        assert((a + 1) * w == a * w + w) by (nonlinear_arith);
    } else if l == 1 {
        codes::lemma_mass_first(lens, n);
        assert(0 * w == 0) by (nonlinear_arith);
    } else {
        lemma_place_code(lens, l - 1, n as int);
        codes::lemma_mass_next_len(lens, l - 1, n as int, n);
        lemma_pow2_unfold((15 - (l - 1)) as nat);
        let a = first_code(lens, l - 1) + count(lens, l - 1, n as int);
        assert(codes::weight(l - 1) == 2 * w);
        assert(a * (2 * w) == (2 * a) * w) by (nonlinear_arith);
        assert(first_code(lens, l) + count(lens, l, 0) == 2 * a);
    }
}

/// The codewords are the canonical ones.
proof fn lemma_code_of(lens: Seq<u8>, s: int)
    requires
        codes::bounded(lens),
        codes::used(lens, s),
    ensures
        codes::codeword(lens, s) == code_of(lens, s),
{
    let l = lens[s] as int;
    lemma_place_code(lens, l, s);
    codes::lemma_weight_pos(l);
    let w = codes::weight(l);
    let c = code_of(lens, s);
    assert(c * w / w == c) by (nonlinear_arith)
        requires
            w > 0,
    ;
}

/// A code that may be declared can be decoded, and no other.
///
/// In particular, a code without any codeword can, and so can a code with one codeword of
/// one bit.
pub proof fn law_codes_allowed(lens: Seq<u8>)
    requires
        forall|s: int| 0 <= s < lens.len() ==> #[trigger] lens[s] <= 15,
    ensures
        codes::decodable(lens) <==> allowed(lens),
        codes::complete(lens) <==> full(lens),
        codes::kraft(lens) == 0 <==> no_code(lens),
{
    let n = lens.len();
    assert(codes::bounded(lens));
    lemma_space(lens, n);
    codes::lemma_empty_kraft(lens, n);
    assert forall|s: int| codes::lone(lens, s) implies one_code(lens, s) by {
        assert forall|t: int| 0 <= t < lens.len() && t != s implies #[trigger] lens[t] == 0 by {
            assert(!codes::used(lens, t));
        }
    }
    assert forall|s: int| one_code(lens, s) implies codes::lone(lens, s) by {
        assert forall|t: int| codes::used(lens, t) implies t == s by {}
    }
    if exists|s: int| codes::lone(lens, s) {
        let s = choose|s: int| codes::lone(lens, s);
        assert(one_code(lens, s));
    }
    if exists|s: int| one_code(lens, s) {
        let s = choose|s: int| one_code(lens, s);
        assert(codes::lone(lens, s));
    }
}

/// A symbol reads as itself: in a code without a gap as its codeword says, in the others
/// whatever the bit is.
pub proof fn law_symbol_read(b: Seq<bool>, lens: Seq<u8>, p: int, s: int)
    requires
        allowed(lens),
        symbol_at(b, lens, p, s),
    ensures
        stream::sym_at(b, lens, p) == (s, sym_len(lens, s)),
        1 <= sym_len(lens, s) <= 15,
{
    assert(codes::bounded(lens));
    law_codes_allowed(lens);
    if no_code(lens) {
        lemma_no_full(lens);
    } else if exists|t: int| one_code(lens, t) {
        let t = choose|t: int| one_code(lens, t);
        assert(codes::lone(lens, t)) by {
            assert forall|x: int| codes::used(lens, x) implies x == t by {}
        }
        assert(t == s);
        codes::lemma_lone_kraft(lens, s, lens.len());
        let u = choose|u: int| codes::lone(lens, u);
        assert(codes::lone(lens, u));
        assert(u == s) by {
            assert(codes::used(lens, s));
        }
    } else {
        lemma_code_of(lens, s);
        lemma_word(b, p, lens[s] as nat, code_of(lens, s));
        codes::lemma_read_codeword(lens, s, b, p);
    }
}

/// A code without codewords takes no space.
proof fn lemma_no_full(lens: Seq<u8>)
    requires
        no_code(lens),
    ensures
        !codes::complete(lens),
        codes::kraft(lens) == 0,
{
    assert(codes::bounded(lens));
    codes::lemma_empty_kraft(lens, lens.len());
}

/// What reads as a symbol is one.
pub proof fn law_symbol_there(b: Seq<bool>, lens: Seq<u8>, p: int)
    requires
        allowed(lens),
        lens.len() > 0,
        0 <= p,
        p + stream::sym_at(b, lens, p).1 <= b.len(),
    ensures
        symbol_at(b, lens, p, stream::sym_at(b, lens, p).0),
        stream::sym_at(b, lens, p).1 == sym_len(lens, stream::sym_at(b, lens, p).0),
        0 <= stream::sym_at(b, lens, p).0 < lens.len(),
{
    assert(codes::bounded(lens));
    law_codes_allowed(lens);
    let w = bits::be_val(b, p, 15);
    bits::lemma_be_bound(b, p, 15);
    lemma2_to64();
    codes::lemma_next_sym_range(lens, w);
    let s = stream::sym_at(b, lens, p).0;
    if codes::complete(lens) {
        assert(codes::hits(lens, s, w));
        let n = lens[s] as nat;
        let m = (15 - n) as nat;
        codes::lemma_codeword(lens, s);
        lemma_code_of(lens, s);
        bits::lemma_be_split(b, p, n, m);
        assert(n + m == 15);
        bits::lemma_be_bound(b, p + n, m);
        let x = bits::be_val(b, p, n);
        let y = bits::be_val(b, p + n, m);
        let c = code_of(lens, s);
        let k = pow2(m) as int;
        assert(codes::weight(lens[s] as int) == k);
        assert(x == c) by (nonlinear_arith)
            requires
                c * k <= x * k + y < (c + 1) * k,
                0 <= y < k,
        ;
        lemma_word(b, p, n, c);
        if no_code(lens) {
            lemma_no_full(lens);
        }
    } else if codes::kraft(lens) == 0 {
    } else {
        let t = choose|t: int| one_code(lens, t);
        assert(codes::lone(lens, t)) by {
            assert forall|x: int| codes::used(lens, x) implies x == t by {}
        }
        assert(codes::lone(lens, s));
        assert(one_code(lens, s)) by {
            assert forall|x: int| 0 <= x < lens.len() && x != s implies #[trigger] lens[x] == 0 by {
                assert(!codes::used(lens, x));
            }
        }
        assert(!no_code(lens));
    }
}

/// The tables give the lengths.
proof fn lemma_length(s: int, x: int)
    requires
        257 <= s < 288,
    ensures
        stream::length_extra(s) == length_extra(s),
        s < 265 || s > 284 ==> stream::length_base(s) == length_of(s, x),
        265 <= s <= 284 ==> stream::length_base(s) + x == length_of(s, x),
        length_extra(s) <= 5,
        stream::length_base(s) >= 3,
{
    lemma2_to64();
    if s <= 284 {
        let i = s - 257;
        let e = DEFLATE_LENGTH_EXTRA_BITS@[i];
        let v = DEFLATE_LENGTH_BASE@[i];
        if s >= 265 {
            let k = (s - 1) % 4;
            assert(e == (s - 261) / 4);
            assert(e == 1 ==> v == 3 + (4 + k) * 2);
            assert(e == 2 ==> v == 3 + (4 + k) * 4);
            assert(e == 3 ==> v == 3 + (4 + k) * 8);
            assert(e == 4 ==> v == 3 + (4 + k) * 16);
            assert(e == 5 ==> v == 3 + (4 + k) * 32);
            assert(1 <= e <= 5);
        }
    }
}

/// The tables give the distances.
#[verifier::spinoff_prover]
#[verifier::rlimit(60)]
proof fn lemma_distance(s: int, x: int)
    requires
        0 <= s < 32,
        s < 4 ==> x == 0,
    ensures
        stream::offset_extra(s) == distance_extra(s),
        stream::offset_base(s) + x == distance_of(s, x),
        distance_extra(s) <= 13,
        stream::offset_base(s) >= 1,
{
    lemma2_to64();
    let e = DEFLATE_OFFSET_EXTRA_BITS@[s];
    let v = DEFLATE_OFFSET_BASE@[s];
    if 4 <= s <= 29 {
        let k = s % 2;
        assert(e == s / 2 - 1);
        let q = pow2(e as nat) as int;
        assert(s / 2 == 2 ==> q == 2 && v == 1 + (2 + k) * 2);
        assert(s / 2 == 3 ==> q == 4 && v == 1 + (2 + k) * 4);
        assert(s / 2 == 4 ==> q == 8 && v == 1 + (2 + k) * 8);
        assert(s / 2 == 5 ==> q == 16 && v == 1 + (2 + k) * 16);
        assert(s / 2 == 6 ==> q == 32 && v == 1 + (2 + k) * 32);
        assert(s / 2 == 7 ==> q == 64 && v == 1 + (2 + k) * 64);
        assert(s / 2 == 8 ==> q == 128 && v == 1 + (2 + k) * 128);
        assert(s / 2 == 9 ==> q == 256 && v == 1 + (2 + k) * 256);
        assert(s / 2 == 10 ==> q == 512 && v == 1 + (2 + k) * 512);
        assert(s / 2 == 11 ==> q == 1024 && v == 1 + (2 + k) * 1024);
        assert(s / 2 == 12 ==> q == 2048 && v == 1 + (2 + k) * 2048);
        assert(s / 2 == 13 ==> q == 4096 && v == 1 + (2 + k) * 4096);
        assert(s / 2 == 14 ==> q == 8192 && v == 1 + (2 + k) * 8192);
        assert(2 <= s / 2 <= 14);
        assert(v == 1 + (2 + k) * q);
    }
}

/// Copying byte by byte repeats the last bytes.
pub proof fn lemma_copy(out: Seq<u8>, d: int, len: nat)
    requires
        1 <= d <= out.len(),
    ensures
        stream::copy_match(out, d, len) == out + Seq::new(
            len,
            |i: int| out[out.len() - d + i % d],
        ),
    decreases len,
{
    let all = out + Seq::new(len, |i: int| out[out.len() - d + i % d]);
    if len == 0 {
        assert(all =~= out);
    } else {
        let m = (len - 1) as nat;
        lemma_copy(out, d, m);
        let o = stream::copy_match(out, d, m);
        let n = out.len() as int;
        if m < d {
            vstd::arithmetic::div_mod::lemma_small_mod(m, d as nat);
        } else {
            vstd::arithmetic::div_mod::lemma_mod_sub_multiples_vanish(m as int, d);
        }
        assert(o[o.len() - d] == out[n - d + (m as int) % d]);
        assert(o.push(o[o.len() - d]) =~= all);
    }
}

/// Playing items only adds to the output.
pub proof fn lemma_played_len(out: Seq<u8>, its: Seq<Item>)
    ensures
        out.len() <= all_played(out, its).len(),
    decreases its.len(),
{
    if its.len() > 0 {
        lemma_played_len(played(out, its[0]), its.drop_first());
    }
}

/// A match reads as its length and its distance.
pub proof fn lemma_copy_read(
    b: Seq<bool>,
    ll: Seq<u8>,
    ol: Seq<u8>,
    p: int,
    ls: int,
    lx: int,
    os: int,
    ox: int,
)
    requires
        allowed(ll),
        allowed(ol),
        ll.len() <= 288,
        ol.len() <= 32,
        item_at(b, ll, ol, p, Item::Copy { ls, lx, os, ox }),
    ensures
        stream::sym_at(b, ll, p) == (ls, sym_len(ll, ls)),
        1 <= sym_len(ll, ls),
        stream::match_at(b, ol, ls, p + sym_len(ll, ls)) == (
            length_of(ls, lx),
            distance_of(os, ox),
            p + item_len(ll, ol, Item::Copy { ls, lx, os, ox }),
        ),
        1 <= distance_of(os, ox),
        3 <= length_of(ls, lx),
        item_len(ll, ol, Item::Copy { ls, lx, os, ox }) >= 2,
{
    law_symbol_read(b, ll, p, ls);
    let p1 = p + sym_len(ll, ls);
    let p2 = p1 + length_extra(ls);
    let p3 = p2 + sym_len(ol, os);
    lemma_number(b, p1, length_extra(ls), lx);
    law_symbol_read(b, ol, p2, os);
    lemma_number(b, p3, distance_extra(os), ox);
    lemma2_to64();
    lemma_length(ls, lx);
    lemma_distance(os, ox);
}

/// Literals and matches decode to what they stand for, up to the end of the block.
pub proof fn law_items_decode(
    b: Seq<bool>,
    ll: Seq<u8>,
    ol: Seq<u8>,
    p: int,
    its: Seq<Item>,
    out: Seq<u8>,
    cap: int,
)
    requires
        0 <= p,
        allowed(ll),
        allowed(ol),
        ll.len() <= 288,
        ol.len() <= 32,
        items_at(b, ll, ol, p, its, out),
        symbol_at(b, ll, p + items_len(ll, ol, its), 256),
        cap >= all_played(out, its).len(),
    ensures
        stream::items(b, ll, ol, p, out, cap) == (stream::Step::Next {
            p: p + items_len(ll, ol, its) + sym_len(ll, 256),
            out: all_played(out, its),
        }),
        0 <= items_len(ll, ol, its),
        p + items_len(ll, ol, its) + sym_len(ll, 256) <= b.len(),
    decreases its.len(),
{
    if its.len() == 0 {
        law_symbol_read(b, ll, p, 256);
    } else {
        let rest = its.drop_first();
        let o = played(out, its[0]);
        let q = p + item_len(ll, ol, its[0]);
        lemma_played_len(o, rest);
        match its[0] {
            Item::Byte { v } => {
                law_symbol_read(b, ll, p, v as int);
                law_items_decode(b, ll, ol, q, rest, o, cap);
            },
            Item::Copy { ls, lx, os, ox } => {
                lemma_copy_read(b, ll, ol, p, ls, lx, os, ox);
                lemma_copy(out, distance_of(os, ox), length_of(ls, lx) as nat);
                law_items_decode(b, ll, ol, q, rest, o, cap);
            },
        }
    }
}

/// The number of extra bits of a symbol for packed codeword lengths.
pub open spec fn pack_extra(s: int) -> nat {
    if s == 16 {
        2
    } else if s == 17 {
        3
    } else if s == 18 {
        7
    } else {
        0
    }
}

/// The codeword lengths that a symbol stands for: itself, the last length three to six times
/// more, or a run of zeros, of up to ten or up to 138.
pub open spec fn pack_run(acc: Seq<u8>, it: (int, int)) -> Seq<u8> {
    if it.0 < 16 {
        seq![it.0 as u8]
    } else if it.0 == 16 {
        Seq::new((3 + it.1) as nat, |i: int| acc.last())
    } else if it.0 == 17 {
        Seq::new((3 + it.1) as nat, |i: int| 0u8)
    } else {
        Seq::new((11 + it.1) as nat, |i: int| 0u8)
    }
}

/// The number of bits of packed codeword lengths.
pub open spec fn packs_len(pl: Seq<u8>, its: Seq<(int, int)>) -> int
    decreases its.len(),
{
    if its.len() == 0 {
        0
    } else {
        sym_len(pl, its[0].0) + pack_extra(its[0].0) + packs_len(pl, its.drop_first())
    }
}

/// The packed codeword lengths stand at `p`, behind the lengths `acc`.
pub open spec fn packs_at(
    b: Seq<bool>,
    pl: Seq<u8>,
    p: int,
    its: Seq<(int, int)>,
    acc: Seq<u8>,
) -> bool
    decreases its.len(),
{
    its.len() == 0 || {
        let s = its[0].0;
        let q = p + sym_len(pl, s);
        &&& symbol_at(b, pl, p, s)
        &&& number_at(b, q, pack_extra(s), its[0].1)
        &&& s == 16 ==> acc.len() > 0
        &&& packs_at(
            b,
            pl,
            q + pack_extra(s),
            its.drop_first(),
            acc + pack_run(acc, its[0]),
        )
    }
}

/// The codeword lengths that packed ones stand for, behind the lengths `acc`.
pub open spec fn unpacked(acc: Seq<u8>, its: Seq<(int, int)>) -> Seq<u8>
    decreases its.len(),
{
    if its.len() == 0 {
        acc
    } else {
        unpacked(acc + pack_run(acc, its[0]), its.drop_first())
    }
}

/// Unpacking adds at least one length for each symbol.
proof fn lemma_unpacked_len(acc: Seq<u8>, its: Seq<(int, int)>, b: Seq<bool>, pl: Seq<u8>, p: int)
    requires
        0 <= p,
        packs_at(b, pl, p, its, acc),
    ensures
        acc.len() + its.len() <= unpacked(acc, its).len(),
    decreases its.len(),
{
    if its.len() > 0 {
        let s = its[0].0;
        lemma_number(b, p + sym_len(pl, s), pack_extra(s), its[0].1);
        lemma_unpacked_len(
            acc + pack_run(acc, its[0]),
            its.drop_first(),
            b,
            pl,
            p + sym_len(pl, s) + pack_extra(s),
        );
    }
}

/// Packed codeword lengths read as what they stand for.
pub proof fn law_lens_read(
    b: Seq<bool>,
    pl: Seq<u8>,
    p: int,
    its: Seq<(int, int)>,
    acc: Seq<u8>,
)
    requires
        0 <= p,
        allowed(pl),
        pl.len() == 19,
        packs_at(b, pl, p, its, acc),
    ensures
        stream::read_lens(b, pl, p, acc, unpacked(acc, its).len() as int) == Some(
            (p + packs_len(pl, its), unpacked(acc, its)),
        ),
        0 <= packs_len(pl, its),
        its.len() > 0 ==> p + packs_len(pl, its) <= b.len(),
    decreases its.len(),
{
    if its.len() > 0 {
        let s = its[0].0;
        let x = its[0].1;
        let q = p + sym_len(pl, s);
        let acc1 = acc + pack_run(acc, its[0]);
        law_symbol_read(b, pl, p, s);
        lemma_number(b, q, pack_extra(s), x);
        lemma_unpacked_len(acc, its, b, pl, p);
        law_lens_read(b, pl, q + pack_extra(s), its.drop_first(), acc1);
        if s < 16 {
            assert(acc.push(s as u8) =~= acc1);
        } else {
            assert(acc1 =~= acc + stream::repeat(
                if s == 16 {
                    acc.last()
                } else {
                    0
                },
                if s == 18 {
                    11 + x
                } else {
                    3 + x
                },
            ));
        }
    }
}

/// The order in which the lengths of the code for packed lengths are declared.
pub open spec fn declared_order() -> Seq<int> {
    seq![16, 17, 18, 0, 8, 7, 9, 6, 10, 5, 11, 4, 12, 3, 13, 2, 14, 1, 15]
}

/// The codes that a block declares: the lengths of the codewords for literals and lengths and
/// for distances, those of the code that packs them, how many of these are listed, and how
/// they are packed.
pub struct Codes {
    pub ll: Seq<u8>,
    pub ol: Seq<u8>,
    pub pl: Seq<u8>,
    pub listed: int,
    pub packs: Seq<(int, int)>,
}

/// The number of bits that declare codes.
pub open spec fn codes_len(c: Codes) -> int {
    14 + 3 * c.listed + packs_len(c.pl, c.packs)
}

/// The declared codes stand at `p`.
pub open spec fn codes_at(b: Seq<bool>, p: int, c: Codes) -> bool {
    &&& 257 <= c.ll.len() <= 288
    &&& 1 <= c.ol.len() <= 32
    &&& 4 <= c.listed <= 19
    &&& c.pl.len() == 19
    &&& number_at(b, p, 5, c.ll.len() - 257)
    &&& number_at(b, p + 5, 5, c.ol.len() - 1)
    &&& number_at(b, p + 10, 4, c.listed - 4)
    &&& forall|k: int|
        0 <= k < 19 ==> if k < c.listed {
            number_at(b, p + 14 + 3 * k, 3, c.pl[#[trigger] declared_order()[k]] as int)
        } else {
            c.pl[declared_order()[k]] == 0
        }
    &&& allowed(c.pl)
    &&& packs_at(b, c.pl, p + 14 + 3 * c.listed, c.packs, Seq::empty())
    &&& unpacked(Seq::empty(), c.packs) == c.ll + c.ol
    &&& allowed(c.ll)
    &&& allowed(c.ol)
}

/// Where a symbol stands in the order of declaration.
spec fn rank_of(s: int) -> int {
    if s == 0 {
        3
    } else if s >= 16 {
        s - 16
    } else if s >= 8 {
        2 * s - 12
    } else {
        19 - 2 * s
    }
}

/// The order is that of the table.
proof fn lemma_order(k: int, s: int)
    requires
        0 <= k < 19,
        0 <= s < 19,
    ensures
        declared_order()[k] == DEFLATE_PRECODE_LENS_PERMUTATION@[k],
        0 <= declared_order()[k] < 19,
        rank_of(declared_order()[k]) == k,
        0 <= rank_of(s) < 19,
        declared_order()[rank_of(s)] == s,
{
}

/// The lengths of the code for packed lengths, as they are read.
proof fn lemma_read_at(b: Seq<bool>, p: int, n: int, k: nat, s: int)
    requires
        k <= 19,
        0 <= s < 19,
    ensures
        stream::precode_lens(b, p, n, k).len() == 19,
        stream::precode_lens(b, p, n, k)[s] == if rank_of(s) < k && rank_of(s) < n {
            bits::le_val(b, p + 3 * rank_of(s), 3) as u8
        } else {
            0u8
        },
    decreases k,
{
    if k > 0 {
        lemma_read_at(b, p, n, (k - 1) as nat, s);
        lemma_order(k - 1, s);
    }
}

/// Declared codes are read, whether they have no gap, no codeword or one of one bit.
pub proof fn law_codes_read(b: Seq<bool>, p: int, c: Codes)
    requires
        0 <= p,
        codes_at(b, p, c),
    ensures
        stream::dynamic_header(b, p) == Some((p + codes_len(c), c.ll, c.ol)),
        p + codes_len(c) <= b.len(),
        codes_len(c) > 0,
{
    lemma_number(b, p, 5, c.ll.len() - 257);
    lemma_number(b, p + 5, 5, c.ol.len() - 1);
    lemma_number(b, p + 10, 4, c.listed - 4);
    let pre = stream::precode_lens(b, p + 14, c.listed, 19);
    lemma_read_at(b, p + 14, c.listed, 19, 0);
    assert forall|s: int| 0 <= s < 19 implies pre[s] == c.pl[s] by {
        lemma_read_at(b, p + 14, c.listed, 19, s);
        let k = rank_of(s);
        lemma_order(0, s);
        assert(declared_order()[k] == s);
        if k < c.listed {
            lemma_number(b, p + 14 + 3 * k, 3, c.pl[s] as int);
        }
    }
    assert(pre =~= c.pl);
    law_codes_allowed(c.pl);
    law_codes_allowed(c.ll);
    law_codes_allowed(c.ol);
    let all = c.ll + c.ol;
    law_lens_read(b, c.pl, p + 14 + 3 * c.listed, c.packs, Seq::empty());
    assert(all.take(c.ll.len() as int) =~= c.ll);
    assert(all.skip(c.ll.len() as int) =~= c.ol);
    assert(c.packs.len() > 0);
}

/// The lengths of the codewords for literals and lengths in a block that declares none.
pub open spec fn fixed_lens() -> Seq<u8> {
    Seq::new(
        288,
        |s: int|
            if s <= 143 {
                8u8
            } else if s <= 255 {
                9
            } else if s <= 279 {
                7
            } else {
                8
            },
    )
}

/// The lengths of the codewords for distances in a block that declares none.
pub open spec fn fixed_distances() -> Seq<u8> {
    Seq::new(32, |s: int| 5u8)
}

/// These are the static codes.
proof fn lemma_fixed()
    ensures
        fixed_lens() == stream::static_litlen_lens(),
        fixed_distances() == stream::static_offset_lens(),
        allowed(fixed_lens()),
        allowed(fixed_distances()),
{
    assert(fixed_lens() =~= stream::static_litlen_lens());
    assert(fixed_distances() =~= stream::static_offset_lens());
    stream::lemma_static_codes();
    law_codes_allowed(fixed_lens());
    law_codes_allowed(fixed_distances());
}

/// A block: bytes as they are, which begin with their number at the byte boundary `at`;
/// literals and matches in the fixed codes; or in codes that it declares.
pub enum Block {
    Stored { at: int, data: Seq<u8> },
    Fixed { its: Seq<Item> },
    Declared { c: Codes, its: Seq<Item> },
}

/// The items stand at `p`, and behind them the end of the block.
pub open spec fn body_at(
    b: Seq<bool>,
    ll: Seq<u8>,
    ol: Seq<u8>,
    p: int,
    its: Seq<Item>,
    out: Seq<u8>,
) -> bool {
    items_at(b, ll, ol, p, its, out) && symbol_at(b, ll, p + items_len(ll, ol, its), 256)
}

/// The number of bits of items and the end of the block.
pub open spec fn body_len(ll: Seq<u8>, ol: Seq<u8>, its: Seq<Item>) -> int {
    items_len(ll, ol, its) + sym_len(ll, 256)
}

/// The block stands at `p`: a bit for the last one, its kind, and what it holds.
pub open spec fn block_at(b: Seq<bool>, p: int, last: bool, k: Block, out: Seq<u8>) -> bool {
    &&& 0 <= p < b.len()
    &&& b[p] == last
    &&& match k {
        Block::Stored { at, data } => {
            &&& number_at(b, p + 1, 2, 0)
            &&& p + 3 <= at < p + 3 + 8
            &&& at % 8 == 0
            &&& number_at(b, at, 16, data.len() as int)
            &&& number_at(b, at + 16, 16, 65535 - data.len())
            &&& at + 32 + 8 * data.len() <= b.len()
            &&& forall|i: int|
                0 <= i < data.len() ==> number_at(b, at + 32 + 8 * i, 8, #[trigger] data[i] as int)
        },
        Block::Fixed { its } => {
            &&& number_at(b, p + 1, 2, 1)
            &&& body_at(b, fixed_lens(), fixed_distances(), p + 3, its, out)
        },
        Block::Declared { c, its } => {
            &&& number_at(b, p + 1, 2, 2)
            &&& codes_at(b, p + 3, c)
            &&& body_at(b, c.ll, c.ol, p + 3 + codes_len(c), its, out)
        },
    }
}

/// Where a block at `p` ends.
pub open spec fn block_end(p: int, k: Block) -> int {
    match k {
        Block::Stored { at, data } => at + 32 + 8 * data.len(),
        Block::Fixed { its } => p + 3 + body_len(fixed_lens(), fixed_distances(), its),
        Block::Declared { c, its } => p + 3 + codes_len(c) + body_len(c.ll, c.ol, its),
    }
}

/// The output after a block.
pub open spec fn block_out(out: Seq<u8>, k: Block) -> Seq<u8> {
    match k {
        Block::Stored { at, data } => out + data,
        Block::Fixed { its } => all_played(out, its),
        Block::Declared { c, its } => all_played(out, its),
    }
}

/// The blocks stand at `p`, one after the other, and the last one is marked as such.
pub open spec fn blocks_at(b: Seq<bool>, p: int, ks: Seq<Block>, out: Seq<u8>) -> bool
    decreases ks.len(),
{
    &&& ks.len() > 0
    &&& block_at(b, p, ks.len() == 1, ks[0], out)
    &&& ks.len() > 1 ==> blocks_at(
        b,
        block_end(p, ks[0]),
        ks.drop_first(),
        block_out(out, ks[0]),
    )
}

/// Where blocks at `p` end.
pub open spec fn blocks_end(p: int, ks: Seq<Block>) -> int
    decreases ks.len(),
{
    if ks.len() == 0 {
        p
    } else {
        blocks_end(block_end(p, ks[0]), ks.drop_first())
    }
}

/// The output after blocks.
pub open spec fn blocks_out(out: Seq<u8>, ks: Seq<Block>) -> Seq<u8>
    decreases ks.len(),
{
    if ks.len() == 0 {
        out
    } else {
        blocks_out(block_out(out, ks[0]), ks.drop_first())
    }
}

/// Blocks only add to the output.
pub proof fn lemma_blocks_len(out: Seq<u8>, ks: Seq<Block>)
    ensures
        out.len() <= blocks_out(out, ks).len(),
    decreases ks.len(),
{
    if ks.len() > 0 {
        match ks[0] {
            Block::Stored { at, data } => {},
            Block::Fixed { its } => {
                lemma_played_len(out, its);
            },
            Block::Declared { c, its } => {
                lemma_played_len(out, its);
            },
        }
        lemma_blocks_len(block_out(out, ks[0]), ks.drop_first());
    }
}

/// A block decodes to what it stands for.
pub proof fn law_block_decodes(
    b: Seq<bool>,
    p: int,
    last: bool,
    k: Block,
    out: Seq<u8>,
    cap: int,
)
    requires
        block_at(b, p, last, k, out),
        cap >= block_out(out, k).len(),
    ensures
        stream::block(b, p, out, cap) == (stream::Step::Next {
            p: block_end(p, k),
            out: block_out(out, k),
        }),
        stream::is_last(b, p) == last,
        p < block_end(p, k) <= b.len(),
{
    lemma2_to64();
    match k {
        Block::Stored { at, data } => {
            lemma_number(b, p + 1, 2, 0);
            lemma_number(b, at, 16, data.len() as int);
            lemma_number(b, at + 16, 16, 65535 - data.len());
            assert(stream::align8(p + 3) == at);
            let r = stream::bytes_at(b, at + 32, data.len() as int);
            assert forall|i: int| 0 <= i < data.len() implies r[i] == data[i] by {
                lemma_number(b, at + 32 + 8 * i, 8, data[i] as int);
            }
            assert(r =~= data);
        },
        Block::Fixed { its } => {
            lemma_number(b, p + 1, 2, 1);
            lemma_fixed();
            law_items_decode(b, fixed_lens(), fixed_distances(), p + 3, its, out, cap);
            law_symbol_read(
                b,
                fixed_lens(),
                p + 3 + items_len(fixed_lens(), fixed_distances(), its),
                256,
            );
        },
        Block::Declared { c, its } => {
            lemma_number(b, p + 1, 2, 2);
            law_codes_read(b, p + 3, c);
            law_items_decode(b, c.ll, c.ol, p + 3 + codes_len(c), its, out, cap);
            law_symbol_read(b, c.ll, p + 3 + codes_len(c) + items_len(c.ll, c.ol, its), 256);
        },
    }
}

/// Blocks decode to what they stand for.
pub proof fn law_blocks_decode(b: Seq<bool>, p: int, ks: Seq<Block>, out: Seq<u8>, cap: int)
    requires
        blocks_at(b, p, ks, out),
        cap >= blocks_out(out, ks).len(),
    ensures
        stream::inflate(b, p, out, cap) == (stream::Step::Next {
            p: blocks_end(p, ks),
            out: blocks_out(out, ks),
        }),
        p < blocks_end(p, ks) <= b.len(),
    decreases ks.len(),
{
    let rest = ks.drop_first();
    let q = block_end(p, ks[0]);
    let o = block_out(out, ks[0]);
    lemma_blocks_len(o, rest);
    law_block_decodes(b, p, ks.len() == 1, ks[0], out, cap);
    if ks.len() > 1 {
        law_blocks_decode(b, q, rest, o, cap);
    }
}

/// The bytes of a stream are its bits, eight to a byte, the least significant first.
pub proof fn law_bytes_are_bits(data: Seq<u8>, i: int)
    requires
        0 <= i < data.len(),
    ensures
        bits::to_bits(data).len() == 8 * data.len(),
        number_at(bits::to_bits(data), 8 * i, 8, data[i] as int),
{
    bits::lemma_to_bits_byte(data, i);
    lemma_number(bits::to_bits(data), 8 * i, 8, data[i] as int);
}

/// What decodes only with more room does not fit.
proof fn lemma_items_need(
    b: Seq<bool>,
    ll: Seq<u8>,
    ol: Seq<u8>,
    p: int,
    out: Seq<u8>,
    cap: int,
    cap2: int,
)
    requires
        out.len() <= cap,
        allowed(ll),
        1 <= ll.len() <= 288,
    ensures
        stream::items(b, ll, ol, p, out, cap2) matches stream::Step::Next { p: q, out: o }
            ==> if o.len() <= cap {
            stream::items(b, ll, ol, p, out, cap) == (stream::Step::Next { p: q, out: o })
        } else {
            stream::items(b, ll, ol, p, out, cap) is NoSpace
        },
    decreases stream::left(b, p),
{
    if p <= b.len() + stream::overread() {
        let (sym, n) = stream::sym_at(b, ll, p);
        if n >= 1 {
            if sym < 256 {
                lemma_items_begin(b, ll, ol, p + n, out.push(sym as u8), cap2);
                if out.len() < cap {
                    lemma_items_need(b, ll, ol, p + n, out.push(sym as u8), cap, cap2);
                }
            } else if sym > 256 {
                let (len, dist, q) = stream::match_at(b, ol, sym, p + n);
                let o = stream::copy_match(out, dist, len as nat);
                lemma_sym_range(b, ll, p);
                lemma_length(sym, 0);
                bits::lemma_le_bound(b, p + n, stream::length_extra(sym));
                if q > p {
                    crate::decompress::phases::lemma_copy_len(out, dist, len as nat);
                    lemma_items_begin(b, ll, ol, q, o, cap2);
                    if len <= cap - out.len() {
                        lemma_items_need(b, ll, ol, q, o, cap, cap2);
                    }
                }
            }
        }
    }
}

/// Decoding items only adds to the output.
proof fn lemma_items_begin(
    b: Seq<bool>,
    ll: Seq<u8>,
    ol: Seq<u8>,
    p: int,
    out: Seq<u8>,
    cap: int,
)
    ensures
        stream::items(b, ll, ol, p, out, cap) matches stream::Step::Next { p: q, out: o }
            ==> out.len() <= o.len() && p < q,
    decreases stream::left(b, p),
{
    if p <= b.len() + stream::overread() {
        let (sym, n) = stream::sym_at(b, ll, p);
        if n >= 1 {
            if sym < 256 {
                lemma_items_begin(b, ll, ol, p + n, out.push(sym as u8), cap);
            } else if sym > 256 {
                let (len, dist, q) = stream::match_at(b, ol, sym, p + n);
                let o = stream::copy_match(out, dist, len as nat);
                if q > p {
                    crate::decompress::phases::lemma_copy_len(out, dist, len as nat);
                    lemma_items_begin(b, ll, ol, q, o, cap);
                }
            }
        }
    }
}

/// What decodes into enough room decodes into any room that holds its output, and into no
/// smaller one: it is answered then that there is too little room.
pub proof fn law_room_needed(b: Seq<bool>, p: int, out: Seq<u8>, cap: int, cap2: int)
    requires
        out.len() <= cap,
    ensures
        stream::inflate(b, p, out, cap2) matches stream::Step::Next { p: q, out: o }
            ==> out.len() <= o.len() && if o.len() <= cap {
            stream::inflate(b, p, out, cap) == (stream::Step::Next { p: q, out: o })
        } else {
            stream::inflate(b, p, out, cap) is NoSpace
        },
    decreases stream::left(b, p),
{
    if p <= b.len() + stream::overread() {
        match stream::block_codes(b, p) {
            Some((q, ll, ol)) => {
                crate::decompress::laws::lemma_block_codes(b, p);
                law_codes_allowed(ll);
                lemma_items_need(b, ll, ol, q, out, cap, cap2);
                lemma_items_begin(b, ll, ol, q, out, cap2);
            },
            None => {},
        }
        bits::lemma_le_bound(b, stream::align8(p + 3), 16);
        match stream::block(b, p, out, cap2) {
            stream::Step::Next { p: q, out: o } => {
                assert(out.len() <= o.len());
                assert(if o.len() <= cap {
                    stream::block(b, p, out, cap) == (stream::Step::Next { p: q, out: o })
                } else {
                    stream::block(b, p, out, cap) is NoSpace
                });
                if !stream::is_last(b, p) && q > p {
                    lemma_inflate_grows(b, q, o, cap2);
                    if o.len() <= cap {
                        law_room_needed(b, q, o, cap, cap2);
                    }
                }
            },
            _ => {},
        }
    }
}

/// Decoding blocks only adds to the output.
proof fn lemma_inflate_grows(b: Seq<bool>, p: int, out: Seq<u8>, cap: int)
    ensures
        stream::inflate(b, p, out, cap) matches stream::Step::Next { p: q, out: o }
            ==> out.len() <= o.len() && p < q <= b.len(),
{
    crate::decompress::laws::law_inflate_history(b, p, out, cap, Seq::empty(), cap);
}

/// Bytes that hold these blocks decompress to what the blocks stand for, whatever follows
/// them, if there is room for it; if not, that is the answer.
pub proof fn law_stream_decompresses(data: Seq<u8>, ks: Seq<Block>, cap: int)
    requires
        blocks_at(bits::to_bits(data), 0, ks, Seq::empty()),
        0 <= cap,
    ensures
        ({
            let out = blocks_out(Seq::empty(), ks);
            container::deflate(data, cap) == if out.len() <= cap {
                container::Unwrapped::Done { consumed: (blocks_end(0, ks) + 7) / 8, out }
            } else {
                container::Unwrapped::NoSpace
            }
        }),
{
    let b = bits::to_bits(data);
    let e = Seq::<u8>::empty();
    let out = blocks_out(e, ks);
    law_blocks_decode(b, 0, ks, e, out.len() as int);
    law_room_needed(b, 0, e, cap, out.len() as int);
}

/// What decodes as literals and matches is that.
pub proof fn law_items_there(
    b: Seq<bool>,
    ll: Seq<u8>,
    ol: Seq<u8>,
    p: int,
    out: Seq<u8>,
    cap: int,
) -> (its: Seq<Item>)
    requires
        0 <= p,
        allowed(ll),
        allowed(ol),
        257 <= ll.len() <= 288,
        1 <= ol.len() <= 32,
        stream::items(b, ll, ol, p, out, cap) is Next,
        stream::items(b, ll, ol, p, out, cap)->p <= b.len(),
    ensures
        body_at(b, ll, ol, p, its, out),
        stream::items(b, ll, ol, p, out, cap) == (stream::Step::Next {
            p: p + body_len(ll, ol, its),
            out: all_played(out, its),
        }),
    decreases stream::left(b, p),
{
    let end = stream::items(b, ll, ol, p, out, cap)->p;
    let (sym, n) = stream::sym_at(b, ll, p);
    if sym < 256 {
        lemma_items_begin(b, ll, ol, p + n, out.push(sym as u8), cap);
        law_symbol_there(b, ll, p);
        let rest = law_items_there(b, ll, ol, p + n, out.push(sym as u8), cap);
        let it = Item::Byte { v: sym as u8 };
        let its = seq![it] + rest;
        assert(its.drop_first() =~= rest);
        assert(its[0] == it);
        its
    } else if sym == 256 {
        law_symbol_there(b, ll, p);
        Seq::empty()
    } else {
        let (len, dist, q) = stream::match_at(b, ol, sym, p + n);
        let o = stream::copy_match(out, dist, len as nat);
        lemma_items_begin(b, ll, ol, q, o, cap);
        let p1 = p + n;
        let p2 = p1 + stream::length_extra(sym);
        let (os, ob) = stream::sym_at(b, ol, p2);
        assert(1 <= n <= 15 && 0 <= sym < ll.len()) by {
            lemma_sym_range(b, ll, p);
        }
        assert(1 <= ob <= 15 && 0 <= os < ol.len()) by {
            lemma_sym_range(b, ol, p2);
        }
        let lx = bits::le_val(b, p1, stream::length_extra(sym));
        let ox = bits::le_val(b, p2 + ob, stream::offset_extra(os));
        lemma_length(sym, lx);
        bits::lemma_le_bound(b, p1, stream::length_extra(sym));
        bits::lemma_le_bound(b, p2 + ob, stream::offset_extra(os));
        lemma2_to64();
        lemma_distance(os, ox);
        law_symbol_there(b, ll, p);
        law_symbol_there(b, ol, p2);
        lemma_number(b, p1, length_extra(sym), lx);
        lemma_number(b, p2 + ob, distance_extra(os), ox);
        let it = Item::Copy { ls: sym, lx, os, ox };
        assert(len == length_of(sym, lx));
        assert(item_at(b, ll, ol, p, it));
        lemma_copy(out, dist, len as nat);
        assert(played(out, it) == o);
        let rest = law_items_there(b, ll, ol, q, o, cap);
        let its = seq![it] + rest;
        assert(its.drop_first() =~= rest);
        assert(its[0] == it);
        its
    }
}

/// What reads as a symbol is one of the code, of 1 to 15 bits.
proof fn lemma_sym_range(b: Seq<bool>, lens: Seq<u8>, p: int)
    requires
        allowed(lens),
        lens.len() > 0,
    ensures
        0 <= stream::sym_at(b, lens, p).0 < lens.len(),
        1 <= stream::sym_at(b, lens, p).1 <= 15,
{
    law_codes_allowed(lens);
    bits::lemma_be_bound(b, p, 15);
    lemma2_to64();
    codes::lemma_next_sym_range(lens, bits::be_val(b, p, 15));
}

/// Lengths are read one after the other, at least one bit for each symbol.
proof fn lemma_lens_forward(b: Seq<bool>, pl: Seq<u8>, p: int, acc: Seq<u8>, total: int)
    requires
        allowed(pl),
        pl.len() == 19,
    ensures
        stream::read_lens(b, pl, p, acc, total) matches Some((q, lens)) ==> p <= q,
    decreases stream::missing(acc.len() as int, total),
{
    if acc.len() < total {
        lemma_sym_range(b, pl, p);
        let (sym, n) = stream::sym_at(b, pl, p);
        let q = p + n;
        bits::lemma_le_bound(b, q, 2);
        bits::lemma_le_bound(b, q, 3);
        bits::lemma_le_bound(b, q, 7);
        if sym < 16 {
            lemma_lens_forward(b, pl, q, acc.push(sym as u8), total);
        } else if sym == 16 {
            if acc.len() > 0 {
                let r = stream::repeat(acc.last(), 3 + bits::le_val(b, q, 2));
                lemma_lens_forward(b, pl, q + 2, acc + r, total);
            }
        } else if sym == 17 {
            let r = stream::repeat(0, 3 + bits::le_val(b, q, 3));
            lemma_lens_forward(b, pl, q + 3, acc + r, total);
        } else {
            let r = stream::repeat(0, 11 + bits::le_val(b, q, 7));
            lemma_lens_forward(b, pl, q + 7, acc + r, total);
        }
    }
}

/// What reads as packed codeword lengths is that.
pub proof fn law_lens_there(
    b: Seq<bool>,
    pl: Seq<u8>,
    p: int,
    acc: Seq<u8>,
    total: int,
) -> (its: Seq<(int, int)>)
    requires
        0 <= p,
        allowed(pl),
        pl.len() == 19,
        forall|i: int| 0 <= i < acc.len() ==> #[trigger] acc[i] <= 15,
        stream::read_lens(b, pl, p, acc, total) is Some,
        (stream::read_lens(b, pl, p, acc, total)->0).0 <= b.len(),
    ensures
        packs_at(b, pl, p, its, acc),
        stream::read_lens(b, pl, p, acc, total) == Some(
            (p + packs_len(pl, its), unpacked(acc, its)),
        ),
        unpacked(acc, its).len() == total,
        forall|i: int| 0 <= i < total ==> #[trigger] unpacked(acc, its)[i] <= 15,
    decreases stream::missing(acc.len() as int, total),
{
    if acc.len() >= total {
        Seq::empty()
    } else {
        lemma_sym_range(b, pl, p);
        let (sym, n) = stream::sym_at(b, pl, p);
        let q = p + n;
        let k = pack_extra(sym);
        let x = bits::le_val(b, q, k);
        bits::lemma_le_bound(b, q, k);
        let it = (sym, x);
        let acc1 = acc + pack_run(acc, it);
        if sym < 16 {
            assert(acc.push(sym as u8) =~= acc1);
        } else {
            assert(acc1 =~= acc + stream::repeat(
                if sym == 16 {
                    acc.last()
                } else {
                    0
                },
                if sym == 18 {
                    11 + x
                } else {
                    3 + x
                },
            ));
        }
        assert(sym == 16 ==> acc.len() > 0);
        assert(stream::read_lens(b, pl, p, acc, total) == stream::read_lens(
            b,
            pl,
            q + k,
            acc1,
            total,
        ));
        lemma_lens_forward(b, pl, q + k, acc1, total);
        law_symbol_there(b, pl, p);
        lemma_number(b, q, k, x);
        assert forall|i: int| 0 <= i < acc1.len() implies #[trigger] acc1[i] <= 15 by {
            if i >= acc.len() && sym == 16 {
                assert(acc1[i] == acc[acc.len() - 1]);
            }
        }
        let rest = law_lens_there(b, pl, q + k, acc1, total);
        let its = seq![it] + rest;
        assert(its.drop_first() =~= rest);
        assert(its[0] == it);
        its
    }
}

/// What reads as declared codes is that.
pub proof fn law_codes_there(b: Seq<bool>, p: int) -> (c: Codes)
    requires
        0 <= p,
        stream::dynamic_header(b, p) is Some,
        (stream::dynamic_header(b, p)->0).0 <= b.len(),
    ensures
        codes_at(b, p, c),
        stream::dynamic_header(b, p) == Some((p + codes_len(c), c.ll, c.ol)),
{
    lemma2_to64();
    let nl = 257 + bits::le_val(b, p, 5);
    let no = 1 + bits::le_val(b, p + 5, 5);
    let np = 4 + bits::le_val(b, p + 10, 4);
    bits::lemma_le_bound(b, p, 5);
    bits::lemma_le_bound(b, p + 5, 5);
    bits::lemma_le_bound(b, p + 10, 4);
    let pl = stream::precode_lens(b, p + 14, np, 19);
    lemma_read_at(b, p + 14, np, 19, 0);
    assert forall|s: int| 0 <= s < 19 implies #[trigger] pl[s] <= 15 by {
        lemma_read_at(b, p + 14, np, 19, s);
        bits::lemma_le_bound(b, p + 14 + 3 * rank_of(s), 3);
    }
    law_codes_allowed(pl);
    let at = p + 14 + 3 * np;
    lemma_lens_forward(b, pl, at, Seq::empty(), nl + no);
    let packs = law_lens_there(b, pl, at, Seq::empty(), nl + no);
    let lens = unpacked(Seq::empty(), packs);
    let c = Codes { ll: lens.take(nl), ol: lens.skip(nl), pl, listed: np, packs };
    assert(c.ll + c.ol =~= lens);
    law_codes_allowed(c.ll);
    law_codes_allowed(c.ol);
    assert(at <= b.len());
    lemma_number(b, p, 5, nl - 257);
    lemma_number(b, p + 5, 5, no - 1);
    lemma_number(b, p + 10, 4, np - 4);
    assert forall|k: int| 0 <= k < 19 implies if k < np {
        number_at(b, p + 14 + 3 * k, 3, pl[#[trigger] declared_order()[k]] as int)
    } else {
        pl[declared_order()[k]] == 0
    } by {
        lemma_order(k, 0);
        let s = declared_order()[k];
        lemma_read_at(b, p + 14, np, 19, s);
        if k < np {
            bits::lemma_le_bound(b, p + 14 + 3 * k, 3);
            lemma_number(b, p + 14 + 3 * k, 3, pl[s] as int);
        }
    }
    c
}

/// What decodes as a block is one.
pub proof fn law_block_there(b: Seq<bool>, p: int, out: Seq<u8>, cap: int) -> (k: Block)
    requires
        0 <= p,
        stream::block(b, p, out, cap) is Next,
        p < stream::block(b, p, out, cap)->p <= b.len(),
    ensures
        block_at(b, p, stream::is_last(b, p), k, out),
        stream::block(b, p, out, cap) == (stream::Step::Next {
            p: block_end(p, k),
            out: block_out(out, k),
        }),
{
    lemma2_to64();
    let kind = bits::le_val(b, p + 1, 2);
    bits::lemma_le_bound(b, p + 1, 2);
    if kind == 0 {
        let at = stream::align8(p + 3);
        let len = bits::le_val(b, at, 16);
        bits::lemma_le_bound(b, at, 16);
        let data = stream::bytes_at(b, at + 32, len);
        lemma_number(b, p + 1, 2, kind);
        lemma_number(b, at, 16, len);
        lemma_number(b, at + 16, 16, 65535 - len);
        assert forall|i: int| 0 <= i < data.len() implies number_at(
            b,
            at + 32 + 8 * i,
            8,
            #[trigger] data[i] as int,
        ) by {
            bits::lemma_le_bound(b, at + 32 + 8 * i, 8);
            lemma_number(b, at + 32 + 8 * i, 8, data[i] as int);
        }
        Block::Stored { at, data }
    } else if kind == 1 {
        lemma_fixed();
        lemma_items_begin(b, fixed_lens(), fixed_distances(), p + 3, out, cap);
        lemma_number(b, p + 1, 2, kind);
        let its = law_items_there(b, fixed_lens(), fixed_distances(), p + 3, out, cap);
        Block::Fixed { its }
    } else {
        let (q, ll, ol) = stream::dynamic_header(b, p + 3)->0;
        lemma_items_begin(b, ll, ol, q, out, cap);
        let c = law_codes_there(b, p + 3);
        lemma_number(b, p + 1, 2, kind);
        law_codes_read(b, p + 3, c);
        let its = law_items_there(b, c.ll, c.ol, p + 3 + codes_len(c), out, cap);
        Block::Declared { c, its }
    }
}

/// What decodes is a stream of blocks.
pub proof fn law_blocks_there(b: Seq<bool>, p: int, out: Seq<u8>, cap: int) -> (ks: Seq<Block>)
    requires
        0 <= p,
        stream::inflate(b, p, out, cap) is Next,
    ensures
        blocks_at(b, p, ks, out),
        stream::inflate(b, p, out, cap) == (stream::Step::Next {
            p: blocks_end(p, ks),
            out: blocks_out(out, ks),
        }),
    decreases stream::left(b, p),
{
    lemma_inflate_grows(b, p, out, cap);
    let q = stream::block(b, p, out, cap)->p;
    let o = stream::block(b, p, out, cap)->out;
    if stream::is_last(b, p) {
        let k = law_block_there(b, p, out, cap);
        let ks = seq![k];
        assert(ks.drop_first() =~= Seq::empty());
        assert(ks[0] == k);
        reveal_with_fuel(blocks_end, 2);
        reveal_with_fuel(blocks_out, 2);
        ks
    } else {
        lemma_inflate_grows(b, q, o, cap);
        let k = law_block_there(b, p, out, cap);
        let rest = law_blocks_there(b, q, o, cap);
        let ks = seq![k] + rest;
        assert(ks.drop_first() =~= rest);
        assert(ks[0] == k);
        ks
    }
}

/// Only bytes that begin with a stream of blocks decompress.
pub proof fn law_only_streams_decompress(data: Seq<u8>, cap: int) -> (ks: Seq<Block>)
    requires
        container::deflate(data, cap) is Done,
    ensures
        blocks_at(bits::to_bits(data), 0, ks, Seq::empty()),
        container::deflate(data, cap) == (container::Unwrapped::Done {
            consumed: (blocks_end(0, ks) + 7) / 8,
            out: blocks_out(Seq::empty(), ks),
        }),
{
    law_blocks_there(bits::to_bits(data), 0, Seq::empty(), cap)
}

} // verus!
