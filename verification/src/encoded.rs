//! The mathematical content of an Elias-Fano set: what is stored, what the
//! queries read from it, and how it is laid out in bytes.

use vstd::prelude::*;
use crate::bits::{bits_of, field_at, holds_code};
use crate::bitseq::{bit_at, is_nth, lemma_count_ext, lemma_nth_found, nth, window};
use crate::bytes::{
    be_bytes, be_word, le_bytes_of, le_words_of, lemma_join_split, lemma_le_words_of_le_bytes,
};
use crate::errors::ErrorKind;
use crate::layout::{
    below, bucket_of, doublings, fits_buckets, high_part, histogram, join_parts, lemma_below_all,
    lemma_below_bound, lemma_below_splits, lemma_bucket_range, lemma_buckets_ordered,
    lemma_doublings_bound, lemma_high_monotone, lemma_join_parts, lemma_lower_field,
    lemma_lower_len, lemma_total_is_below, lemma_upper_one, lemma_upper_zero, lower_code,
    strictly_increasing, upper_code,
};
use crate::unary::{lemma_unary_locate, lemma_unary_one};
use crate::word::{lemma_pack_ext, lemma_pack_unpack, low_mask, unpack};

verus! {

/// Length in bytes of the header that precedes the two bit vectors.
pub const HEADER_BYTES: usize = 32;

/// What an Elias-Fano set stores: three parameters and the words of its two
/// bit vectors.
pub struct Encoded {
    /// The number of values.
    pub size: usize,
    /// The number of bits that name a bucket.
    pub num_upper_bits: usize,
    /// The number of low bits stored per value.
    pub num_lower_bits: usize,
    /// The words of the unary bucket code.
    pub upper: Seq<u64>,
    /// The words of the packed low parts.
    pub lower: Seq<u64>,
}

impl Encoded {
    /// The value decoded at `rank`: its low part is the field of
    /// `num_lower_bits` bits at `rank * num_lower_bits` in the lower vector,
    /// its high part the distance from `rank` to the position of the set bit
    /// of that rank in the upper vector.  Nothing is decoded at a rank from
    /// `size` on, for fields wider than a word, or where either vector ends
    /// too early.
    pub open spec fn get(self, rank: int) -> Option<usize> {
        let width = self.num_lower_bits as int;
        if 0 <= rank < self.size && width <= 64 {
            match (
                field_at(self.lower, rank * width, rank * width + width),
                nth(bits_of(self.upper), true, rank as nat),
            ) {
                (Some(low), Some(p)) => Some(
                    join_parts((p - rank) as u64, low, width as nat) as usize,
                ),
                _ => None,
            }
        } else {
            None
        }
    }

    /// The first value of at least `value` decoded at a rank from `from` on.
    pub open spec fn scan(self, from: int, value: usize) -> Option<usize>
        decreases self.size - from,
    {
        if from < 0 || from >= self.size {
            None
        } else {
            match self.get(from) {
                Some(x) => if x >= value {
                    Some(x)
                } else {
                    self.scan(from + 1, value)
                },
                None => self.scan(from + 1, value),
            }
        }
    }

    /// The bucket in which a search for `value` starts.
    pub open spec fn search_bucket(self, value: usize) -> u64 {
        bucket_of(value as u64, self.num_lower_bits as nat, self.num_upper_bits as nat)
    }

    /// The rank at which a search for `value` starts: 0 for the first
    /// bucket; for bucket `b`, the number of set bits before the unset bit
    /// that closes bucket `b - 1`.  Nothing if the upper vector holds no such
    /// unset bit.
    pub open spec fn search_start(self, value: usize) -> Option<int> {
        let b = self.search_bucket(value);
        if b == 0 {
            Some(0)
        } else {
            match nth(bits_of(self.upper), false, (b - 1) as nat) {
                Some(p) => Some(p - (b - 1)),
                None => None,
            }
        }
    }

    /// The first value of at least `value` that is decoded from the start of
    /// the bucket of `value` on.
    pub open spec fn next_geq(self, value: usize) -> Option<usize> {
        match self.search_start(value) {
            Some(start) => self.scan(start, value),
            None => None,
        }
    }

    /// The values decoded at the ranks below `n`, in rank order, skipping the
    /// ranks at which nothing is decoded.
    pub open spec fn values_upto(self, n: int) -> Seq<usize>
        decreases n,
    {
        if n <= 0 {
            Seq::empty()
        } else {
            match self.get(n - 1) {
                Some(x) => self.values_upto(n - 1).push(x),
                None => self.values_upto(n - 1),
            }
        }
    }

    /// All the decoded values, in rank order.
    pub open spec fn values(self) -> Seq<usize> {
        self.values_upto(self.size as int)
    }

    /// This is the encoding of the non-empty sequence `ids`: the lower width
    /// is the base-2 logarithm of `largest / count`, rounded up, the upper
    /// width that of `count`, the lower vector holds the low parts side by
    /// side and the upper vector the bucket sizes in unary.
    pub open spec fn encodes(self, ids: Seq<usize>) -> bool {
        &&& ids.len() > 0
        &&& self.size == ids.len()
        &&& self.num_lower_bits == doublings(ids.last() as nat, ids.len())
        &&& self.num_upper_bits == doublings(ids.len(), 1)
        &&& holds_code(self.lower, lower_code(ids, self.num_lower_bits as nat))
        &&& holds_code(
            self.upper,
            upper_code(ids, self.num_lower_bits as nat, self.num_upper_bits as nat),
        )
    }

    /// This is the encoding of the strictly increasing sequence `ids`, and
    /// no high part was cut when buckets were assigned, so that every value
    /// can be decoded.
    pub open spec fn holds(self, ids: Seq<usize>) -> bool {
        &&& self.encodes(ids)
        &&& strictly_increasing(ids)
        &&& fits_buckets(ids, self.num_lower_bits as nat, self.num_upper_bits as nat)
    }

    /// The serialised form: `size`, `num_upper_bits`, `num_lower_bits` and
    /// the byte length of the upper vector, each as eight bytes, most
    /// significant first; then the words of the upper vector and those of
    /// the lower vector, each as eight bytes, least significant first.
    pub open spec fn to_bytes(self) -> Seq<u8> {
        be_bytes(self.size as u64) + be_bytes(self.num_upper_bits as u64) + be_bytes(
            self.num_lower_bits as u64,
        ) + be_bytes((8 * self.upper.len()) as u64) + le_bytes_of(self.upper) + le_bytes_of(
            self.lower,
        )
    }
}

/// `answer` is the smallest value of `ids` that is at least `value`, or
/// nothing if every value of `ids` is smaller.
pub open spec fn is_successor(ids: Seq<usize>, value: usize, answer: Option<usize>) -> bool {
    match answer {
        Some(x) => ids.contains(x) && x >= value && forall|j: int|
            0 <= j < ids.len() && ids[j] >= value ==> x <= ids[j],
        None => forall|j: int| 0 <= j < ids.len() ==> ids[j] < value,
    }
}

/// What a byte buffer decodes to.  A buffer shorter than the header, or than
/// the header and the upper vector that the header announces, is refused with
/// its own length; an upper or lower vector that is not a whole number of
/// words is refused with the length of that vector.
pub open spec fn parse(data: Seq<u8>) -> Result<Encoded, ErrorKind> {
    if data.len() < HEADER_BYTES {
        Err(ErrorKind::InvalidSourceData(data.len() as usize))
    } else {
        let announced = be_word(data, 24);
        let rest = data.len() - HEADER_BYTES;
        if announced > rest {
            Err(ErrorKind::InvalidSourceData(data.len() as usize))
        } else if announced % 8 != 0 {
            Err(ErrorKind::InvalidSourceData(announced as usize))
        } else if (rest - announced) % 8 != 0 {
            Err(ErrorKind::InvalidSourceData((rest - announced) as usize))
        } else {
            let split = HEADER_BYTES + announced;
            Ok(
                Encoded {
                    size: be_word(data, 0) as usize,
                    num_upper_bits: be_word(data, 8) as usize,
                    num_lower_bits: be_word(data, 16) as usize,
                    upper: le_words_of(data.subrange(HEADER_BYTES as int, split)),
                    lower: le_words_of(data.subrange(split, data.len() as int)),
                },
            )
        }
    }
}

/// Words that hold a code have, up to the length of the code, the bits and
/// the ranks of the code.
proof fn lemma_nth_in_holder(words: Seq<u64>, code: Seq<bool>, b: bool, r: nat, p: int)
    requires
        holds_code(words, code),
        is_nth(code, b, r, p),
    ensures
        nth(bits_of(words), b, r) == Some(p),
{
    let stored = bits_of(words);
    assert(stored.len() == 64 * words.len());
    assert forall|i: int| 0 <= i < p implies stored[i] == code[i] by {
        assert(stored[i] == bit_at(code, i));
    }
    lemma_count_ext(stored, code, b, p);
    assert(stored[p] == bit_at(code, p));
    lemma_nth_found(stored, b, r, p);
}

/// The field of a rank in the lower vector holds the low bits of the value
/// of that rank.
proof fn lemma_low_field(e: Encoded, ids: Seq<usize>, rank: int)
    requires
        e.encodes(ids),
        0 <= rank < ids.len(),
    ensures
        e.num_lower_bits <= 64,
        field_at(
            e.lower,
            rank * e.num_lower_bits,
            rank * e.num_lower_bits + e.num_lower_bits,
        ) == Some((ids[rank] as u64) & low_mask(e.num_lower_bits as u64)),
{
    let w = e.num_lower_bits as nat;
    let id = ids[rank] as u64;
    lemma_doublings_bound(ids.last() as nat, ids.len());
    let code = lower_code(ids, w);
    let stored = bits_of(e.lower);
    let start = rank * w;
    let field = window(stored, start, w);
    assert(code.len() == ids.len() * w && start + w <= ids.len() * w) by {
        lemma_lower_len(ids, w);
        assert(rank * w + w <= ids.len() * w) by (nonlinear_arith)
            requires
                0 <= rank < ids.len(),
        ;
    }
    assert(0 <= start) by (nonlinear_arith)
        requires
            start == rank * w,
            0 <= rank,
    ;
    assert(stored.len() == 64 * e.lower.len());
    assert forall|j: int| 0 <= j < w implies field[j] == unpack(id, w)[j] by {
        lemma_lower_field(ids, w, rank, j);
        assert(stored[start + j] == bit_at(code, start + j));
    }
    lemma_pack_ext(field, unpack(id, w), w);
    lemma_pack_unpack(id, w);
}

/// Decoding gives back every value: a set that encodes an increasing
/// sequence whose buckets are not cut decodes, at each rank, the value of
/// that rank.
pub proof fn lemma_get_recovers(e: Encoded, ids: Seq<usize>, rank: int)
    requires
        e.holds(ids),
        0 <= rank < ids.len(),
    ensures
        e.get(rank) == Some(ids[rank]),
{
    let w = e.num_lower_bits as nat;
    let uw = e.num_upper_bits as nat;
    let id = ids[rank] as u64;
    lemma_low_field(e, ids, rank);
    lemma_upper_one(ids, w, uw, rank);
    lemma_nth_in_holder(
        e.upper,
        upper_code(ids, w, uw),
        true,
        rank as nat,
        rank + high_part(id, w),
    );
    lemma_join_parts(id, w);
}

/// Where the high part of the largest value is cut, the largest value is
/// lost: whatever is decoded at the last rank is smaller.  So decoding gives
/// back every value only of sequences whose buckets are not cut.
pub proof fn lemma_cut_bucket_loses_largest(e: Encoded, ids: Seq<usize>)
    requires
        e.encodes(ids),
        !fits_buckets(ids, e.num_lower_bits as nat, e.num_upper_bits as nat),
    ensures
        e.get(ids.len() - 1) matches Some(x) && x < ids.last(),
{
    let w = e.num_lower_bits as nat;
    let uw = e.num_upper_bits as nat;
    let rank = ids.len() - 1;
    let largest = ids.last() as u64;
    let counts = histogram(ids, w, uw);
    lemma_low_field(e, ids, rank);
    lemma_below_all(ids, w, uw);
    lemma_total_is_below(ids, w, uw, counts.len() as int);
    let (b, j) = lemma_unary_locate(counts, rank);
    lemma_unary_one(counts, b, j);
    lemma_nth_in_holder(e.upper, upper_code(ids, w, uw), true, rank as nat, rank + b);
    let low = largest & low_mask(w as u64);
    let high = b as u64;
    let top = high_part(largest, w);
    assert(join_parts(high, low, w) < largest) by {
        let width = w as u64;
        assert(((high << width) | low) < largest) by (bit_vector)
            requires
                width < 64,
                high < largest >> width,
                low == largest & !(0xffff_ffff_ffff_ffffu64 << width),
        ;
    }
}

/// A set that encodes an increasing sequence whose buckets are not cut
/// decodes exactly that sequence.
pub proof fn lemma_values_recover(e: Encoded, ids: Seq<usize>)
    requires
        e.holds(ids),
    ensures
        e.values() == ids,
{
    lemma_values_prefix(e, ids, ids.len() as int);
    assert(ids.take(ids.len() as int) =~= ids);
}

/// The values decoded below rank `n` are the first `n` values.
proof fn lemma_values_prefix(e: Encoded, ids: Seq<usize>, n: int)
    requires
        e.holds(ids),
        0 <= n <= ids.len(),
    ensures
        e.values_upto(n) == ids.take(n),
    decreases n,
{
    if n > 0 {
        lemma_values_prefix(e, ids, n - 1);
        lemma_get_recovers(e, ids, n - 1);
        assert(ids.take(n) =~= ids.take(n - 1).push(ids[n - 1]));
    } else {
        assert(ids.take(0) =~= Seq::<usize>::empty());
    }
}

/// The smallest of the values from rank `from` on that is at least `value`.
proof fn lemma_scan_finds(e: Encoded, ids: Seq<usize>, from: int, value: usize)
    requires
        e.holds(ids),
        0 <= from <= ids.len(),
    ensures
        match e.scan(from, value) {
            Some(x) => exists|i: int|
                from <= i < ids.len() && ids[i] == x && x >= value && forall|j: int|
                    from <= j < i ==> ids[j] < value,
            None => forall|j: int| from <= j < ids.len() ==> ids[j] < value,
        },
    decreases ids.len() - from,
{
    if from < ids.len() {
        lemma_get_recovers(e, ids, from);
        if ids[from] >= value {
            assert(from <= from < ids.len() && ids[from] == ids[from]);
        } else {
            lemma_scan_finds(e, ids, from + 1, value);
            match e.scan(from + 1, value) {
                Some(x) => {
                    let i = choose|i: int|
                        from + 1 <= i < ids.len() && ids[i] == x && x >= value && forall|j: int|
                            from + 1 <= j < i ==> ids[j] < value;
                    assert(from <= i < ids.len() && ids[i] == x && x >= value && forall|j: int|
                        from <= j < i ==> ids[j] < value);
                },
                None => {},
            }
        }
    }
}

/// A successor query answers with the smallest value that is at least the
/// asked one, and with nothing exactly when every value is smaller: this
/// holds of a set that encodes an increasing sequence whose buckets are not
/// cut.
pub proof fn lemma_next_geq_is_successor(e: Encoded, ids: Seq<usize>, value: usize)
    requires
        e.holds(ids),
    ensures
        is_successor(ids, value, e.next_geq(value)),
{
    let w = e.num_lower_bits as nat;
    let uw = e.num_upper_bits as nat;
    let b = e.search_bucket(value) as int;
    lemma_bucket_range(value as u64, w, uw);
    let start: int = if b == 0 {
        0
    } else {
        below(ids, w, uw, b) as int
    };
    if b > 0 {
        lemma_upper_zero(ids, w, uw, b - 1);
        lemma_nth_in_holder(
            e.upper,
            upper_code(ids, w, uw),
            false,
            (b - 1) as nat,
            below(ids, w, uw, b) + (b - 1),
        );
        lemma_below_bound(ids, w, uw, b);
    }
    assert(e.search_start(value) == Some(start));
    // no value before the start is large enough
    assert forall|j: int| 0 <= j < start implies ids[j] < value by {
        lemma_below_splits(ids, w, uw, b, j);
        lemma_bucket_range(ids[j] as u64, w, uw);
        if ids[j] >= value {
            lemma_high_monotone(value as u64, ids[j] as u64, w);
            lemma_buckets_ordered(ids, w, uw, j, j);
        }
    }
    lemma_scan_finds(e, ids, start, value);
    match e.scan(start, value) {
        Some(x) => {
            let i = choose|i: int|
                start <= i < ids.len() && ids[i] == x && x >= value && forall|j: int|
                    start <= j < i ==> ids[j] < value;
            assert(ids[i] == x);
            assert forall|j: int| 0 <= j < ids.len() && ids[j] >= value implies x <= ids[j] by {
                if j < i {
                    assert(ids[j] < value);
                }
            }
        },
        None => {},
    }
}

/// Reading back what was written gives the same content: parsing the
/// serialised form of a set whose upper vector can be measured in bytes
/// yields the set.
pub proof fn lemma_parse_to_bytes(e: Encoded)
    requires
        8 * e.upper.len() <= usize::MAX,
    ensures
        parse(e.to_bytes()) == Ok::<Encoded, ErrorKind>(e),
{
    let data = e.to_bytes();
    let announced = (8 * e.upper.len()) as u64;
    let h0 = be_bytes(e.size as u64);
    let h1 = be_bytes(e.num_upper_bits as u64);
    let h2 = be_bytes(e.num_lower_bits as u64);
    let h3 = be_bytes(announced);
    let up = le_bytes_of(e.upper);
    let lo = le_bytes_of(e.lower);
    assert(data.len() == 32 + up.len() + lo.len());
    lemma_join_split(e.size as u64);
    lemma_join_split(e.num_upper_bits as u64);
    lemma_join_split(e.num_lower_bits as u64);
    lemma_join_split(announced);
    assert forall|j: int| 0 <= j < 8 implies data[j] == h0[j] && data[8 + j] == h1[j] && data[16
        + j] == h2[j] && data[24 + j] == h3[j] by {}
    assert(be_word(data, 0) == e.size as u64);
    assert(be_word(data, 8) == e.num_upper_bits as u64);
    assert(be_word(data, 16) == e.num_lower_bits as u64);
    assert(be_word(data, 24) == announced);
    let split = 32 + announced;
    assert(data.subrange(32, split) =~= up);
    assert(data.subrange(split, data.len() as int) =~= lo);
    lemma_le_words_of_le_bytes(e.upper);
    lemma_le_words_of_le_bytes(e.lower);
    let parsed = parse(data);
    assert(parsed is Ok);
    let r = parsed->Ok_0;
    assert(r.upper =~= e.upper);
    assert(r.lower =~= e.lower);
}

} // verus!
