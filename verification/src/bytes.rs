//! Fixed-width integers as bytes, in both byte orders.

use vstd::prelude::*;

verus! {

/// The eight bytes of `w`, least significant byte first.
pub open spec fn le_bytes(w: u64) -> Seq<u8> {
    seq![
        (w & 0xff) as u8,
        ((w >> 8) & 0xff) as u8,
        ((w >> 16) & 0xff) as u8,
        ((w >> 24) & 0xff) as u8,
        ((w >> 32) & 0xff) as u8,
        ((w >> 40) & 0xff) as u8,
        ((w >> 48) & 0xff) as u8,
        ((w >> 56) & 0xff) as u8,
    ]
}

/// The eight bytes of `w`, most significant byte first.
pub open spec fn be_bytes(w: u64) -> Seq<u8> {
    le_bytes(w).reverse()
}

/// The word made of eight bytes, the first being the least significant.
pub open spec fn join_bytes(b0: u8, b1: u8, b2: u8, b3: u8, b4: u8, b5: u8, b6: u8, b7: u8) -> u64 {
    (b0 as u64) | (b1 as u64) << 8 | (b2 as u64) << 16 | (b3 as u64) << 24 | (b4 as u64) << 32 | (
    b5 as u64) << 40 | (b6 as u64) << 48 | (b7 as u64) << 56
}

/// The word stored least significant byte first in `s[at..at + 8]`.
pub open spec fn le_word(s: Seq<u8>, at: int) -> u64 {
    join_bytes(
        s[at],
        s[at + 1],
        s[at + 2],
        s[at + 3],
        s[at + 4],
        s[at + 5],
        s[at + 6],
        s[at + 7],
    )
}

/// The word stored most significant byte first in `s[at..at + 8]`.
pub open spec fn be_word(s: Seq<u8>, at: int) -> u64 {
    join_bytes(
        s[at + 7],
        s[at + 6],
        s[at + 5],
        s[at + 4],
        s[at + 3],
        s[at + 2],
        s[at + 1],
        s[at],
    )
}

/// The bytes of all of `words`, each word least significant byte first.
pub open spec fn le_bytes_of(words: Seq<u64>) -> Seq<u8> {
    Seq::new(8 * words.len(), |i: int| le_bytes(words[i / 8])[i % 8])
}

/// The words stored least significant byte first in `s`, which holds a whole
/// number of them.
pub open spec fn le_words_of(s: Seq<u8>) -> Seq<u64> {
    Seq::new(s.len() / 8, |i: int| le_word(s, 8 * i))
}

/// Splitting a word into bytes and joining them again gives the word back.
pub proof fn lemma_join_split(w: u64)
    ensures
        join_bytes(
            (w & 0xff) as u8,
            ((w >> 8) & 0xff) as u8,
            ((w >> 16) & 0xff) as u8,
            ((w >> 24) & 0xff) as u8,
            ((w >> 32) & 0xff) as u8,
            ((w >> 40) & 0xff) as u8,
            ((w >> 48) & 0xff) as u8,
            ((w >> 56) & 0xff) as u8,
        ) == w,
{
    assert(((w & 0xff) as u8 as u64) | (((w >> 8) & 0xff) as u8 as u64) << 8 | (((w >> 16) & 0xff) as u8 as u64)
        << 16 | (((w >> 24) & 0xff) as u8 as u64) << 24 | (((w >> 32) & 0xff) as u8 as u64) << 32 | (((w
        >> 40) & 0xff) as u8 as u64) << 40 | (((w >> 48) & 0xff) as u8 as u64) << 48 | (((w >> 56)
        & 0xff) as u8 as u64) << 56 == w) by (bit_vector);
}

/// Reading back the words of a buffer written by `le_bytes_of` gives the
/// words.
pub proof fn lemma_le_words_of_le_bytes(words: Seq<u64>)
    ensures
        le_words_of(le_bytes_of(words)) =~= words,
{
    let s = le_bytes_of(words);
    assert(s.len() / 8 == words.len());
    assert forall|i: int| 0 <= i < words.len() implies le_word(s, 8 * i) == words[i] by {
        lemma_join_split(words[i]);
        assert(s[8 * i] == le_bytes(words[(8 * i) / 8])[(8 * i) % 8]);
        assert(s[8 * i + 1] == le_bytes(words[(8 * i + 1) / 8])[(8 * i + 1) % 8]);
        assert(s[8 * i + 2] == le_bytes(words[(8 * i + 2) / 8])[(8 * i + 2) % 8]);
        assert(s[8 * i + 3] == le_bytes(words[(8 * i + 3) / 8])[(8 * i + 3) % 8]);
        assert(s[8 * i + 4] == le_bytes(words[(8 * i + 4) / 8])[(8 * i + 4) % 8]);
        assert(s[8 * i + 5] == le_bytes(words[(8 * i + 5) / 8])[(8 * i + 5) % 8]);
        assert(s[8 * i + 6] == le_bytes(words[(8 * i + 6) / 8])[(8 * i + 6) % 8]);
        assert(s[8 * i + 7] == le_bytes(words[(8 * i + 7) / 8])[(8 * i + 7) % 8]);
    }
}

/// Reads the word stored least significant byte first at `data[at..at + 8]`.
pub fn read_le(data: &[u8], at: usize) -> (w: u64)
    requires
        at + 8 <= data@.len(),
    ensures
        w == le_word(data@, at as int),
{
    (data[at] as u64) | (data[at + 1] as u64) << 8 | (data[at + 2] as u64) << 16 | (data[at
        + 3] as u64) << 24 | (data[at + 4] as u64) << 32 | (data[at + 5] as u64) << 40 | (data[at
        + 6] as u64) << 48 | (data[at + 7] as u64) << 56
}

/// Reads the word stored most significant byte first at `data[at..at + 8]`.
pub fn read_be(data: &[u8], at: usize) -> (w: u64)
    requires
        at + 8 <= data@.len(),
    ensures
        w == be_word(data@, at as int),
{
    let n: usize = data.len();
    assert(at + 7 < n);
    (data[at + 7] as u64) | (data[at + 6] as u64) << 8 | (data[at + 5] as u64) << 16 | (data[at
        + 4] as u64) << 24 | (data[at + 3] as u64) << 32 | (data[at + 2] as u64) << 40 | (data[at
        + 1] as u64) << 48 | (data[at] as u64) << 56
}

/// Appends the eight bytes of `w` to `out`, least significant byte first.
pub fn push_le(out: &mut Vec<u8>, w: u64)
    ensures
        final(out)@ == old(out)@ + le_bytes(w),
{
    out.push(#[verifier::truncate] ((w & 0xff) as u8));
    out.push(#[verifier::truncate] (((w >> 8) & 0xff) as u8));
    out.push(#[verifier::truncate] (((w >> 16) & 0xff) as u8));
    out.push(#[verifier::truncate] (((w >> 24) & 0xff) as u8));
    out.push(#[verifier::truncate] (((w >> 32) & 0xff) as u8));
    out.push(#[verifier::truncate] (((w >> 40) & 0xff) as u8));
    out.push(#[verifier::truncate] (((w >> 48) & 0xff) as u8));
    out.push(#[verifier::truncate] (((w >> 56) & 0xff) as u8));
    assert(out@ =~= old(out)@ + le_bytes(w));
}

/// Appends the eight bytes of `w` to `out`, most significant byte first.
pub fn push_be(out: &mut Vec<u8>, w: u64)
    ensures
        final(out)@ == old(out)@ + be_bytes(w),
{
    out.push(#[verifier::truncate] (((w >> 56) & 0xff) as u8));
    out.push(#[verifier::truncate] (((w >> 48) & 0xff) as u8));
    out.push(#[verifier::truncate] (((w >> 40) & 0xff) as u8));
    out.push(#[verifier::truncate] (((w >> 32) & 0xff) as u8));
    out.push(#[verifier::truncate] (((w >> 24) & 0xff) as u8));
    out.push(#[verifier::truncate] (((w >> 16) & 0xff) as u8));
    out.push(#[verifier::truncate] (((w >> 8) & 0xff) as u8));
    out.push(#[verifier::truncate] ((w & 0xff) as u8));
    assert(out@ =~= old(out)@ + be_bytes(w));
}

} // verus!
