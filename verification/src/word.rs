//! Facts about single 64-bit words, read as sequences of 64 bits.
//!
//! Bit `i` of a word is the bit of weight `2^i`, so position 0 is the least
//! significant bit.  Every other module reasons about words through
//! [`word_bit`] and the lemmas below, never through shifts and masks directly.

use vstd::prelude::*;
use crate::bitseq::count;

verus! {

/// Whether bit `i` of `w` is set.  Positions from 64 on read as unset.
pub open spec fn word_bit(w: u64, i: u64) -> bool {
    i < 64 && (w >> i) & 1 == 1
}

/// The word whose `k` lowest bits are set and all others unset.
pub open spec fn low_mask(k: u64) -> u64 {
    if k >= 64 {
        0xffff_ffff_ffff_ffffu64
    } else {
        !(0xffff_ffff_ffff_ffffu64 << k)
    }
}

/// The 64 bits of `w`, least significant first.
pub open spec fn word_bits(w: u64) -> Seq<bool> {
    Seq::new(64, |i: int| word_bit(w, i as u64))
}

/// The `k` lowest bits of `w`, least significant first.
pub open spec fn unpack(w: u64, k: nat) -> Seq<bool> {
    Seq::new(k, |i: int| word_bit(w, i as u64))
}

/// The word whose bit `i` is `s[i]` for every `i` below `k`, and unset from
/// `k` on.
pub open spec fn pack(s: Seq<bool>, k: nat) -> u64
    decreases k,
{
    if k == 0 {
        0
    } else if s[k - 1] {
        pack(s, (k - 1) as nat) | (1u64 << ((k - 1) as u64))
    } else {
        pack(s, (k - 1) as nat)
    }
}

/// The zero word has no bit set.
pub proof fn lemma_bit_zero(i: u64)
    ensures
        !word_bit(0, i),
{
    assert((0u64 >> i) & 1 == 0) by (bit_vector);
}

/// A bit of `a | b` is set where it is set in `a` or in `b`.
pub proof fn lemma_bit_or(a: u64, b: u64, i: u64)
    ensures
        word_bit(a | b, i) == (word_bit(a, i) || word_bit(b, i)),
{
    assert((((a | b) >> i) & 1 == 1) == ((a >> i) & 1 == 1 || (b >> i) & 1 == 1))
        by (bit_vector);
}

/// A bit of `a & b` is set where it is set in both `a` and `b`.
pub proof fn lemma_bit_and(a: u64, b: u64, i: u64)
    ensures
        word_bit(a & b, i) == (word_bit(a, i) && word_bit(b, i)),
{
    assert((((a & b) >> i) & 1 == 1) == ((a >> i) & 1 == 1 && (b >> i) & 1 == 1))
        by (bit_vector);
}

/// Bit `i` of `x << c` is bit `i - c` of `x`, and unset below `c`.
pub proof fn lemma_bit_shl(x: u64, c: u64, i: u64)
    requires
        c < 64,
        i < 64,
    ensures
        word_bit(x << c, i) == (c <= i && word_bit(x, (i - c) as u64)),
{
    if c <= i {
        let d: u64 = (i - c) as u64;
        assert((((x << c) >> i) & 1 == 1) == ((x >> d) & 1 == 1)) by (bit_vector)
            requires
                c <= i,
                i < 64,
                d == i - c,
        ;
    } else {
        assert(((x << c) >> i) & 1 == 0) by (bit_vector)
            requires
                i < c,
                c < 64,
        ;
    }
}

/// Bit `i` of `x >> c` is bit `i + c` of `x`.
pub proof fn lemma_bit_shr(x: u64, c: u64, i: u64)
    requires
        c < 64,
        i < 64,
    ensures
        word_bit(x >> c, i) == word_bit(x, (i + c) as u64),
{
    assert((((x >> c) >> i) & 1 == 1) == (i + c < 64 && (x >> ((i + c) as u64)) & 1 == 1))
        by (bit_vector)
        requires
            c < 64,
            i < 64,
    ;
}

/// Or-ing a shifted field into a word sets, from position `c` on, the bits
/// of the field, and keeps the bits the word had.
pub proof fn lemma_bit_or_shl(w: u64, v: u64, c: u64, i: u64)
    requires
        c < 64,
        i < 64,
    ensures
        word_bit(w | (v << c), i) == (word_bit(w, i) || (c <= i && word_bit(v, (i - c) as u64))),
{
    lemma_bit_or(w, v << c, i);
    lemma_bit_shl(v, c, i);
}

/// A field cut to its `k` lowest bits has those bits and no others.
pub proof fn lemma_bit_cut(v: u64, k: u64, i: u64)
    ensures
        word_bit(v & low_mask(k), i) == (i < k && word_bit(v, i)),
{
    lemma_bit_and(v, low_mask(k), i);
    lemma_bit_low_mask(k, i);
}

/// The mask of `k` bits has exactly the bits below `k` set.
pub proof fn lemma_bit_low_mask(k: u64, i: u64)
    ensures
        word_bit(low_mask(k), i) == (i < k && i < 64),
{
    if k >= 64 {
        assert(i < 64 ==> (0xffff_ffff_ffff_ffffu64 >> i) & 1 == 1) by (bit_vector);
    } else {
        assert(i < 64 ==> (((!(0xffff_ffff_ffff_ffffu64 << k)) >> i) & 1 == 1) == (i < k))
            by (bit_vector)
            requires
                k < 64,
        ;
    }
}

/// The word `1 << j` has bit `j` set and no other.
pub proof fn lemma_bit_single(j: u64, i: u64)
    requires
        j < 64,
    ensures
        word_bit(1u64 << j, i) == (i == j),
{
    assert(i < 64 ==> ((((1u64 << j) >> i) & 1 == 1) == (i == j))) by (bit_vector)
        requires
            j < 64,
    ;
}

/// Words that agree on their `k` lowest bits and on bit `k` agree on their
/// `k + 1` lowest bits.
proof fn lemma_low_bits_step(a: u64, b: u64, k: u64)
    requires
        k < 64,
        a & low_mask(k) == b & low_mask(k),
        word_bit(a, k) == word_bit(b, k),
    ensures
        a & low_mask((k + 1) as u64) == b & low_mask((k + 1) as u64),
{
    if k == 63 {
        assert((a & !(0xffff_ffff_ffff_ffffu64 << 63) == b & !(0xffff_ffff_ffff_ffffu64 << 63)
            && ((a >> 63) & 1 == 1) == ((b >> 63) & 1 == 1)) ==> a & 0xffff_ffff_ffff_ffffu64
            == b & 0xffff_ffff_ffff_ffffu64) by (bit_vector);
    } else {
        let k1: u64 = (k + 1) as u64;
        assert((a & !(0xffff_ffff_ffff_ffffu64 << k) == b & !(0xffff_ffff_ffff_ffffu64 << k)
            && ((a >> k) & 1 == 1) == ((b >> k) & 1 == 1)) ==> a & !(0xffff_ffff_ffff_ffffu64
            << k1) == b & !(0xffff_ffff_ffff_ffffu64 << k1)) by (bit_vector)
            requires
                k < 63,
                k1 == k + 1,
        ;
    }
}

/// Words with the same bits below `k` are equal once cut to `k` bits.
proof fn lemma_low_bits_equal(a: u64, b: u64, k: u64)
    requires
        k <= 64,
        forall|i: u64| i < k ==> word_bit(a, i) == word_bit(b, i),
    ensures
        a & low_mask(k) == b & low_mask(k),
    decreases k,
{
    if k == 0 {
        assert(a & !(0xffff_ffff_ffff_ffffu64 << 0) == b & !(0xffff_ffff_ffff_ffffu64 << 0))
            by (bit_vector);
    } else {
        let j: u64 = (k - 1) as u64;
        lemma_low_bits_equal(a, b, j);
        lemma_low_bits_step(a, b, j);
    }
}

/// Two words with the same 64 bits are the same word.
pub proof fn lemma_word_ext(a: u64, b: u64)
    requires
        forall|i: u64| i < 64 ==> word_bit(a, i) == word_bit(b, i),
    ensures
        a == b,
{
    lemma_low_bits_equal(a, b, 64);
    assert(a & 0xffff_ffff_ffff_ffffu64 == a) by (bit_vector);
    assert(b & 0xffff_ffff_ffff_ffffu64 == b) by (bit_vector);
}

/// Bit `i` of `pack(s, k)` is `s[i]` below `k` and unset from `k` on.
pub proof fn lemma_pack_bit(s: Seq<bool>, k: nat, i: u64)
    requires
        k <= 64,
    ensures
        word_bit(pack(s, k), i) == (i < k && s[i as int]),
    decreases k,
{
    if k == 0 {
        lemma_bit_zero(i);
    } else {
        let j: u64 = (k - 1) as u64;
        lemma_pack_bit(s, (k - 1) as nat, i);
        if s[k - 1] {
            lemma_bit_or(pack(s, (k - 1) as nat), 1u64 << j, i);
            lemma_bit_single(j, i);
        }
    }
}

/// Packing depends only on the first `k` entries.
pub proof fn lemma_pack_ext(s: Seq<bool>, t: Seq<bool>, k: nat)
    requires
        k <= 64,
        forall|i: int| 0 <= i < k ==> s[i] == t[i],
    ensures
        pack(s, k) == pack(t, k),
{
    assert forall|i: u64| i < 64 implies word_bit(pack(s, k), i) == word_bit(pack(t, k), i) by {
        lemma_pack_bit(s, k, i);
        lemma_pack_bit(t, k, i);
    }
    lemma_word_ext(pack(s, k), pack(t, k));
}

/// Packing the `k` lowest bits of a word gives the word with the other bits
/// cleared.
pub proof fn lemma_pack_unpack(w: u64, k: nat)
    requires
        k <= 64,
    ensures
        pack(unpack(w, k), k) == w & low_mask(k as u64),
{
    let p = pack(unpack(w, k), k);
    let m = w & low_mask(k as u64);
    assert forall|i: u64| i < 64 implies word_bit(p, i) == word_bit(m, i) by {
        lemma_pack_bit(unpack(w, k), k, i);
        lemma_bit_and(w, low_mask(k as u64), i);
        lemma_bit_low_mask(k as u64, i);
    }
    lemma_word_ext(p, m);
}

/// Computes the word whose `k` lowest bits are set.
pub fn low_mask_of(k: usize) -> (m: u64)
    requires
        k <= 64,
    ensures
        m == low_mask(k as u64),
{
    if k >= 64 {
        u64::MAX
    } else {
        !(u64::MAX << k)
    }
}

/// The number of set bits of `w`.
pub open spec fn popcount(w: u64) -> nat {
    count(word_bits(w), true, 64)
}

/// The standard library's `u64::count_ones`, taken on trust: it is assumed,
/// as its documentation says, to return the number of bits that are set in
/// the binary representation of its argument.
pub assume_specification[ u64::count_ones ](w: u64) -> (r: u32)
    ensures
        r == popcount(w),
;

} // verus!
