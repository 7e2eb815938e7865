//! A packed bit vector with append, select and bounded-width extraction.
//!
//! Bits are numbered from 0.  Bit `p` lives in word `p / 64` at bit position
//! `p % 64`, position 0 being the least significant bit of the word.  A field
//! appended from an integer is stored least significant bit first, and is
//! read back the same way.

use vstd::prelude::*;
use crate::bitseq::{
    bit_at, count, is_nth, lemma_count_block, lemma_count_bounds, lemma_count_complement,
    lemma_nth_absent, lemma_nth_found, lemma_nth_characterised, nth, run, window,
};
use crate::bytes::{le_bytes, le_bytes_of, le_words_of, lemma_le_words_of_le_bytes, push_le};
use crate::errors::{Error, ErrorKind};
use crate::store::WordStore;
use crate::word::{
    lemma_bit_cut, lemma_bit_low_mask, lemma_bit_or, lemma_bit_or_shl, lemma_bit_shl,
    lemma_bit_shr, lemma_bit_zero, lemma_pack_bit, lemma_word_ext, low_mask, low_mask_of, pack,
    popcount, unpack, word_bit, word_bits,
};

verus! {

/// All the bits of `words`, word after word, each word least significant bit
/// first.
pub open spec fn bits_of(words: Seq<u64>) -> Seq<bool> {
    Seq::new(64 * words.len(), |p: int| word_bit(words[p / 64], (p % 64) as u64))
}

/// The bits `[start, end)` of `words` as an integer whose bit `i` is bit
/// `start + i`, bits beyond the words reading as unset; nothing when `start`
/// lies beyond the words.
pub open spec fn field_at(words: Seq<u64>, start: int, end: int) -> Option<u64> {
    if start / 64 < words.len() {
        Some(pack(window(bits_of(words), start, (end - start) as nat), (end - start) as nat))
    } else {
        None
    }
}

/// `words` hold the bits of `code`, followed by unset bits up to the end of
/// the word after the last full one.
pub open spec fn holds_code(words: Seq<u64>, code: Seq<bool>) -> bool {
    &&& words.len() == code.len() / 64 + 1
    &&& forall|p: int| 0 <= p < 64 * words.len() ==> bits_of(words)[p] == bit_at(code, p)
}

/// A bit position as a mathematical integer.
pub open spec fn as_position(r: Option<usize>) -> Option<int> {
    match r {
        Some(p) => Some(p as int),
        None => None,
    }
}

/// A bit vector over the word storage `V`.
///
/// Over a `Vec<u64>` the vector can be appended to; over a borrowed byte
/// buffer it is a read-only window onto the buffer.
#[derive(Debug, PartialEq, Eq)]
pub struct Bits<V: WordStore> {
    bits: V,
    current_location: usize,
}

impl<V: WordStore> Bits<V> {
    /// The stored words.
    pub closed spec fn words(&self) -> Seq<u64> {
        self.bits.words()
    }

    /// The offset within the last word at which the next bit is written.
    pub closed spec fn cursor(&self) -> nat {
        self.current_location as nat
    }

    /// Every stored bit, those of the unused rest of the last word included.
    pub open spec fn view(&self) -> Seq<bool> {
        bits_of(self.words())
    }

    /// The storage is whole, and every bit position, and the end of a field
    /// that starts at one, fits a `usize`.
    pub closed spec fn wf(&self) -> bool {
        self.bits.valid() && 64 * self.bits.words().len() + 64 <= usize::MAX
    }

    /// What well-formedness says about the size of the storage.
    pub proof fn lemma_wf_fits(&self)
        requires
            self.wf(),
        ensures
            64 * self.words().len() + 64 <= usize::MAX,
            self@.len() == 64 * self.words().len(),
    {
    }

    /// What `slice` extracts: see [`field_at`].
    pub open spec fn spec_slice(&self, start: int, end: int) -> Option<u64> {
        field_at(self.words(), start, end)
    }

    /// Bit `bi` of word `wi` is bit `64 * wi + bi` of the vector.
    proof fn lemma_stored_bit(&self, wi: int, bi: int)
        requires
            0 <= wi < self.words().len(),
            0 <= bi < 64,
        ensures
            self@.len() == 64 * self.words().len(),
            self@[64 * wi + bi] == word_bit(self.words()[wi], bi as u64),
    {
        assert((64 * wi + bi) / 64 == wi);
        assert((64 * wi + bi) % 64 == bi);
    }

    /// Passing over word `wi` raises the rank by the number of its bits that
    /// equal `b`.
    proof fn lemma_count_word(&self, b: bool, wi: int)
        requires
            0 <= wi < self.words().len(),
        ensures
            count(self@, b, 64 * wi + 64) == count(self@, b, 64 * wi) + if b {
                popcount(self.words()[wi])
            } else {
                (64 - popcount(self.words()[wi])) as nat
            },
            popcount(self.words()[wi]) <= 64,
    {
        let t = word_bits(self.words()[wi]);
        assert forall|i: int| 0 <= i < 64 implies t[i] == self@[64 * wi + i] by {
            self.lemma_stored_bit(wi, i);
        }
        lemma_count_block(self@, t, b, 64 * wi, 64);
        lemma_count_complement(t, 64);
        lemma_count_bounds(t, true, 64);
    }

    /// The position of the bit equal to `bit` that has exactly `index` such
    /// bits before it.  Whole words are skipped by their population count; the
    /// word that holds the bit is scanned over all its 64 positions.
    fn select(&self, bit: bool, index: usize) -> (r: Option<usize>)
        requires
            self.wf(),
        ensures
            as_position(r) == nth(self@, bit, index as nat),
            match r {
                Some(p) => is_nth(self@, bit, index as nat, p as int),
                None => count(self@, bit, self@.len() as int) <= index,
            },
    {
        proof {
            lemma_nth_characterised(self@, bit, index as nat);
        }
        let n: usize = self.bits.word_count();
        let mut total: usize = 0;
        let mut wi: usize = 0;
        while wi < n
            invariant
                self.wf(),
                n == self.words().len(),
                wi <= n,
                total == count(self@, bit, 64 * wi),
                total <= index,
            decreases n - wi,
        {
            let w: u64 = self.bits.word_at(wi);
            let ones: usize = w.count_ones() as usize;
            proof {
                self.lemma_count_word(bit, wi as int);
            }
            let here: usize = if bit {
                ones
            } else {
                64 - ones
            };
            if index - total < here {
                let mut bi: usize = 0;
                let mut seen: usize = total;
                while bi < 64
                    invariant
                        self.wf(),
                        n == self.words().len(),
                        wi < n,
                        w == self.words()[wi as int],
                        bi <= 64,
                        seen == count(self@, bit, 64 * wi + bi),
                        seen <= index,
                        index < count(self@, bit, 64 * wi + 64),
                    decreases 64 - bi,
                {
                    let is_set: bool = (w >> (bi as u64)) & 1 == 1;
                    proof {
                        self.lemma_stored_bit(wi as int, bi as int);
                    }
                    if is_set == bit {
                        if seen == index {
                            proof {
                                lemma_nth_found(self@, bit, index as nat, 64 * wi + bi);
                            }
                            return Some(64 * wi + bi);
                        }
                        seen += 1;
                    }
                    bi += 1;
                }
                return None;
            }
            total += here;
            wi += 1;
        }
        proof {
            assert(self@.len() == 64 * n);
            lemma_nth_absent(self@, bit, index as nat);
        }
        None
    }

    /// The position of the set bit that has exactly `index` set bits before
    /// it, or nothing when the stored words hold no more than `index` set
    /// bits.
    pub fn select_1(&self, index: usize) -> (r: Option<usize>)
        requires
            self.wf(),
        ensures
            as_position(r) == nth(self@, true, index as nat),
            match r {
                Some(p) => is_nth(self@, true, index as nat, p as int),
                None => count(self@, true, self@.len() as int) <= index,
            },
    {
        self.select(true, index)
    }

    /// The position of the unset bit that has exactly `index` unset bits
    /// before it, or nothing when the stored words hold no more than `index`
    /// unset bits.  The unused rest of the last word counts as unset bits.
    pub fn select_0(&self, index: usize) -> (r: Option<usize>)
        requires
            self.wf(),
        ensures
            as_position(r) == nth(self@, false, index as nat),
            match r {
                Some(p) => is_nth(self@, false, index as nat, p as int),
                None => count(self@, false, self@.len() as int) <= index,
            },
    {
        self.select(false, index)
    }

    /// Extracts the bits `[start, end)`, at most 64 of them, as an integer,
    /// bit `start` becoming the least significant bit.  Bits beyond the stored
    /// words read as unset; nothing is extracted when `start` lies beyond the
    /// stored words.
    pub fn slice(&self, start: usize, end: usize) -> (r: Option<u64>)
        requires
            self.wf(),
            start <= end,
            end - start <= 64,
        ensures
            r == self.spec_slice(start as int, end as int),
            r is Some <==> start / 64 < self.words().len(),
            r matches Some(v) ==> forall|i: u64|
                i < 64 ==> word_bit(v, i) == (i < end - start && bit_at(self@, start + i)),
    {
        let n: usize = self.bits.word_count();
        let wi: usize = start / 64;
        let off: usize = start % 64;
        let k: usize = end - start;
        if wi >= n {
            return None;
        }
        let w0: u64 = self.bits.word_at(wi);
        let lo: u64 = w0 >> (off as u64);
        let w1: u64 = if wi + 1 < n {
            self.bits.word_at(wi + 1)
        } else {
            0
        };
        let hi: u64 = if off > 0 {
            w1 << ((64 - off) as u64)
        } else {
            0
        };
        let v: u64 = (lo | hi) & low_mask_of(k);
        proof {
            let field = window(self@, start as int, k as nat);
            let expected = pack(field, k as nat);
            assert forall|i: u64| i < 64 implies word_bit(v, i) == word_bit(expected, i) by {
                lemma_pack_bit(field, k as nat, i);
                lemma_bit_cut(lo | hi, k as u64, i);
                lemma_bit_or(lo, hi, i);
                lemma_bit_shr(w0, off as u64, i);
                if off > 0 {
                    lemma_bit_shl(w1, (64 - off) as u64, i);
                } else {
                    lemma_bit_zero(i);
                }
                if wi + 1 >= n && i + off >= 64 {
                    lemma_bit_zero(((i + off) - 64) as u64);
                }
                if i < k {
                    if i + off < 64 {
                        self.lemma_stored_bit(wi as int, i + off);
                    } else if wi + 1 < n {
                        self.lemma_stored_bit(wi + 1, i + off - 64);
                    }
                }
            }
            lemma_word_ext(v, expected);
            assert forall|i: u64| i < 64 implies word_bit(v, i) == (i < k && bit_at(
                self@,
                start + i,
            )) by {
                lemma_pack_bit(field, k as nat, i);
            }
        }
        Some(v)
    }

    /// The stored words as bytes: eight bytes per word, least significant
    /// byte first, in word order.
    pub fn as_bytes(&self) -> (out: Vec<u8>)
        requires
            self.wf(),
        ensures
            out@ == le_bytes_of(self.words()),
            out@.len() == 8 * self.words().len(),
            le_words_of(out@) == self.words(),
    {
        proof {
            lemma_le_words_of_le_bytes(self.words());
        }
        let n: usize = self.bits.word_count();
        let mut out: Vec<u8> = Vec::new();
        let mut i: usize = 0;
        while i < n
            invariant
                self.wf(),
                n == self.words().len(),
                i <= n,
                out@ == le_bytes_of(self.words().take(i as int)),
            decreases n - i,
        {
            let w: u64 = self.bits.word_at(i);
            push_le(&mut out, w);
            proof {
                let before = le_bytes_of(self.words().take(i as int));
                let after = le_bytes_of(self.words().take(i + 1));
                assert(after =~= before + le_bytes(w));
            }
            i += 1;
        }
        assert(self.words().take(n as int) =~= self.words());
        out
    }
}

impl Bits<Vec<u64>> {
    /// The number of bits appended so far.
    pub open spec fn len(&self) -> nat {
        (64 * (self.words().len() - 1) + self.cursor()) as nat
    }

    /// The bits appended so far, in order.
    pub open spec fn content(&self) -> Seq<bool> {
        self@.take(self.len() as int)
    }

    /// The vector can be appended to: it holds the word being filled, the
    /// cursor lies within that word, and every stored bit beyond the
    /// appended ones is unset.
    pub open spec fn appendable(&self) -> bool {
        &&& self.wf()
        &&& self.words().len() >= 1
        &&& self.cursor() < 64
        &&& forall|p: int| self.len() <= p < self@.len() ==> !self@[p]
    }

    /// An appendable vector holds its content and nothing else.
    pub proof fn lemma_holds_content(&self)
        requires
            self.appendable(),
        ensures
            holds_code(self.words(), self.content()),
    {
        assert(self.content().len() == self.len());
        assert forall|p: int| 0 <= p < 64 * self.words().len() implies bits_of(self.words())[p]
            == bit_at(self.content(), p) by {
            if p < self.len() {
                assert(self.content()[p] == self@[p]);
            } else {
                assert(!self@[p]);
            }
        }
    }

    /// The appended bits fix the buffer: two appendable vectors that hold
    /// the same bits hold the same words and the same cursor.
    pub proof fn lemma_content_fixes_buffer(a: &Self, b: &Self)
        requires
            a.appendable(),
            b.appendable(),
            a.content() == b.content(),
        ensures
            a.words() == b.words(),
            a.cursor() == b.cursor(),
    {
        assert(a@.len() == 64 * a.words().len());
        assert(b@.len() == 64 * b.words().len());
        assert(a.content().len() == a.len());
        assert(b.content().len() == b.len());
        assert forall|wi: int| 0 <= wi < a.words().len() implies a.words()[wi] == b.words()[wi] by {
            assert forall|i: u64| i < 64 implies word_bit(a.words()[wi], i) == word_bit(
                b.words()[wi],
                i,
            ) by {
                let p = 64 * wi + i;
                a.lemma_stored_bit(wi, i as int);
                b.lemma_stored_bit(wi, i as int);
                if p < a.len() {
                    assert(a.content()[p] == a@[p]);
                    assert(b.content()[p] == b@[p]);
                } else {
                    assert(!a@[p]);
                    assert(!b@[p]);
                }
            }
            lemma_word_ext(a.words()[wi], b.words()[wi]);
        }
        assert(a.words() =~= b.words());
    }

    /// Appending `k` set bits leaves the same buffer as appending the `k`
    /// lowest bits of the all-ones word, whatever was appended before.
    pub proof fn lemma_ones_match_all_ones_field(earlier: Seq<bool>, a: &Self, b: &Self, k: nat)
        requires
            k <= 64,
            a.appendable(),
            b.appendable(),
            a.content() == earlier + run(true, k),
            b.content() == earlier + unpack(0xffff_ffff_ffff_ffffu64, k),
        ensures
            a.words() == b.words(),
            a.cursor() == b.cursor(),
    {
        assert forall|i: int| 0 <= i < k implies unpack(0xffff_ffff_ffff_ffffu64, k)[i] by {
            lemma_bit_low_mask(64, i as u64);
        }
        assert(unpack(0xffff_ffff_ffff_ffffu64, k) =~= run(true, k));
        Self::lemma_content_fixes_buffer(a, b);
    }

    /// An empty bit vector: one zero word, nothing appended.
    pub fn new() -> (b: Self)
        ensures
            b.appendable(),
            b.len() == 0,
            b.cursor() == 0,
            b.words() == seq![0u64],
    {
        let mut bits: Vec<u64> = Vec::new();
        bits.push(0);
        let b = Self { bits, current_location: 0 };
        proof {
            assert(b.words() =~= seq![0u64]);
            assert forall|p: int| 0 <= p < b@.len() implies !b@[p] by {
                lemma_bit_zero((p % 64) as u64);
            }
        }
        b
    }

    /// Appends the `k` lowest bits of `field`, which has no other bit set:
    /// the bits that fit go into the word being filled, the others into a new
    /// word.
    fn put(&mut self, field: u64, k: usize)
        requires
            old(self).appendable(),
            k <= 64,
            field == field & low_mask(k as u64),
            old(self).len() + k + 128 <= usize::MAX,
        ensures
            final(self).appendable(),
            final(self).len() == old(self).len() + k,
            final(self).content() == old(self).content() + unpack(field, k as nat),
    {
        let c: usize = self.current_location;
        let last: usize = self.bits.len() - 1;
        let w: u64 = self.bits[last];
        let ghost before = *self;
        let ghost start = self.len() as int;
        proof {
            assert(self@.len() == 64 * self.words().len());
        }
        self.bits.set(last, w | (field << (c as u64)));
        if c + k >= 64 {
            let spill: u64 = if c == 0 {
                0
            } else {
                field >> ((64 - c) as u64)
            };
            self.bits.push(spill);
            self.current_location = c + k - 64;
        } else {
            self.current_location = c + k;
        }
        proof {
            let m = before.words().len() as int;
            assert(self.words().len() == if c + k >= 64 {
                m + 1
            } else {
                m
            });
            assert(self@.len() == 64 * self.words().len());
            assert(self.len() == start + k);
            assert forall|p: int| 0 <= p < self@.len() implies self@[p] == if p < start {
                before@[p]
            } else {
                p - start < k && word_bit(field, (p - start) as u64)
            } by {
                let wi = p / 64;
                let i = (p % 64) as u64;
                lemma_bit_cut(field, k as u64, (p - start) as u64);
                if wi < m - 1 {
                    assert(self.words()[wi] == before.words()[wi]);
                } else if wi == m - 1 {
                    lemma_bit_or_shl(w, field, c as u64, i);
                    if i >= c {
                        assert(!before@[p]);
                    }
                } else {
                    if c == 0 {
                        lemma_bit_zero(i);
                    } else {
                        lemma_bit_shr(field, (64 - c) as u64, i);
                    }
                }
            }
            assert(self.content() =~= before.content() + unpack(field, k as nat));
        }
    }

    /// Appends `number_of_ones` set bits, opening new zero words as the
    /// cursor passes the end of a word.  The grown vector must leave every
    /// bit position within reach of a `usize`.
    pub fn append_ones(&mut self, number_of_ones: usize) -> (ret: &mut Self)
        requires
            old(self).appendable(),
            old(self).len() + number_of_ones + 128 <= usize::MAX,
        ensures
            ret.appendable(),
            ret.len() == old(self).len() + number_of_ones,
            ret.content() == old(self).content() + run(true, number_of_ones as nat),
            *final(self) == *final(ret),
    {
        let mut remaining: usize = number_of_ones;
        while remaining > 0
            invariant
                self.appendable(),
                remaining <= number_of_ones,
                old(self).len() + number_of_ones + 128 <= usize::MAX,
                self.len() == old(self).len() + (number_of_ones - remaining),
                self.content() == old(self).content() + run(
                    true,
                    (number_of_ones - remaining) as nat,
                ),
            decreases remaining,
        {
            let chunk: usize = if remaining < 64 {
                remaining
            } else {
                64
            };
            let field: u64 = low_mask_of(chunk);
            let ghost done = (number_of_ones - remaining) as nat;
            proof {
                assert forall|i: u64| i < 64 implies word_bit(field, i) == word_bit(
                    field & low_mask(chunk as u64),
                    i,
                ) by {
                    lemma_bit_cut(field, chunk as u64, i);
                    lemma_bit_low_mask(chunk as u64, i);
                }
                lemma_word_ext(field, field & low_mask(chunk as u64));
                assert forall|i: int| 0 <= i < chunk implies unpack(field, chunk as nat)[i] by {
                    lemma_bit_low_mask(chunk as u64, i as u64);
                }
                assert(unpack(field, chunk as nat) =~= run(true, chunk as nat));
                assert(run(true, done) + run(true, chunk as nat) =~= run(true, done + chunk as nat));
            }
            self.put(field, chunk);
            remaining -= chunk;
        }
        self
    }

    /// Appends `number_of_zeros` unset bits: new words start out as zero, so
    /// only words are opened and the cursor is moved.  The grown vector must
    /// leave every bit position within reach of a `usize`.
    #[verifier::loop_isolation(false)]
    pub fn append_zeros(&mut self, number_of_zeros: usize) -> (ret: &mut Self)
        requires
            old(self).appendable(),
            old(self).len() + number_of_zeros + 128 <= usize::MAX,
        ensures
            ret.appendable(),
            ret.len() == old(self).len() + number_of_zeros,
            ret.content() == old(self).content() + run(false, number_of_zeros as nat),
            *final(self) == *final(ret),
    {
        let fresh: usize = (number_of_zeros + self.current_location) / 64;
        let ghost before = *self;
        let ghost m = self.words().len() as int;
        proof {
            assert(self@.len() == 64 * m);
        }
        let mut i: usize = 0;
        while i < fresh
            invariant
                i <= fresh,
                self.wf(),
                64 * (m + fresh) + 64 <= usize::MAX,
                self.current_location == before.current_location,
                self.words().len() == m + i,
                forall|j: int| 0 <= j < m ==> #[trigger] self.words()[j] == before.words()[j],
                forall|j: int| m <= j < m + i ==> #[trigger] self.words()[j] == 0,
            decreases fresh - i,
        {
            self.bits.push(0);
            i += 1;
        }
        self.current_location = (self.current_location + number_of_zeros) % 64;
        proof {
            assert(self@.len() == 64 * (m + fresh));
            assert forall|p: int| 0 <= p < self@.len() implies #[trigger] self@[p] == (p
                < before@.len() && before@[p]) by {
                if p / 64 >= m {
                    lemma_bit_zero((p % 64) as u64);
                }
            }
            let total = number_of_zeros + before.cursor();
            assert(total == 64 * (total / 64) + total % 64);
            assert(self.cursor() == total % 64);
            assert(self.len() == before.len() + number_of_zeros);
            let grown = before.content() + run(false, number_of_zeros as nat);
            assert(self.content().len() == grown.len());
            assert(self.len() <= self@.len());
            assert(before.len() <= before@.len());
            assert forall|p: int| 0 <= p < self.len() implies self.content()[p] == grown[p] by {
                assert(self.content()[p] == self@[p]);
                assert(self@[p] == (p < before@.len() && before@[p]));
                if p < before.len() {
                    assert(grown[p] == before.content()[p]);
                    assert(before.content()[p] == before@[p]);
                } else {
                    assert(!grown[p]);
                    if p < before@.len() {
                        assert(!before@[p]);
                    }
                }
            }
            assert(self.content() =~= grown);
        }
        self
    }

    /// Appends the `num_bits` lowest bits of `other`, least significant bit
    /// first: bit `i` of `other` becomes bit `len + i` of the vector.  A field
    /// that does not fit the word being filled continues in a new word.  The
    /// grown vector must leave every bit position within reach of a `usize`.
    pub fn append_from(&mut self, other: u64, num_bits: usize) -> (ret: &mut Self)
        requires
            old(self).appendable(),
            num_bits <= 64,
            old(self).len() + num_bits + 128 <= usize::MAX,
        ensures
            ret.appendable(),
            ret.len() == old(self).len() + num_bits,
            ret.content() == old(self).content() + unpack(other, num_bits as nat),
            *final(self) == *final(ret),
    {
        let field: u64 = other & low_mask_of(num_bits);
        proof {
            assert forall|i: u64| i < 64 implies word_bit(field, i) == word_bit(
                field & low_mask(num_bits as u64),
                i,
            ) by {
                lemma_bit_cut(other, num_bits as u64, i);
                lemma_bit_cut(field, num_bits as u64, i);
            }
            lemma_word_ext(field, field & low_mask(num_bits as u64));
            assert forall|i: int| 0 <= i < num_bits implies unpack(field, num_bits as nat)[i]
                == unpack(other, num_bits as nat)[i] by {
                lemma_bit_cut(other, num_bits as u64, i as u64);
            }
            assert(unpack(field, num_bits as nat) =~= unpack(other, num_bits as nat));
        }
        self.put(field, num_bits);
        self
    }
}

impl<'a> Bits<&'a [u8]> {
    /// A read-only bit vector over `data`, which is read in place as words
    /// of eight bytes, least significant byte first.  A buffer that does not
    /// hold a whole number of words is refused with its length.  Every bit
    /// position of the buffer must be within reach of a `usize`.
    pub fn from_bytes(data: &'a [u8]) -> (r: Result<Self, Error>)
        requires
            8 * data@.len() + 64 <= usize::MAX,
        ensures
            match r {
                Ok(b) => data@.len() % 8 == 0 && b.wf() && b.words() == le_words_of(data@),
                Err(e) => data@.len() % 8 != 0 && e.kind() == ErrorKind::InvalidSourceData(
                    data@.len() as usize,
                ),
            },
    {
        if data.len() % 8 != 0 {
            return Err(Error::invalid_bits_data(data.len()));
        }
        Ok(Self { bits: data, current_location: 0 })
    }
}

} // verus!
