//! A strictly increasing sequence of integers in Elias-Fano encoding.
//!
//! Built once from the sorted values, or opened in place over a serialised
//! buffer, a set answers lookups by rank and successor queries and can be
//! written out as bytes.

use vstd::prelude::*;
use vstd::slice::slice_subrange;
use vstd::std_specs::iter::IteratorSpec;
use crate::bits::Bits;
use crate::bitseq::{lemma_nth_at_least_rank, lemma_nth_characterised, run};
use crate::bytes::{push_be, read_be};
use crate::encoded::{
    is_successor, lemma_get_recovers, lemma_next_geq_is_successor, lemma_parse_to_bytes,
    lemma_values_recover, parse, Encoded, HEADER_BYTES,
};
use crate::errors::{Error, ErrorKind};
use crate::layout::{
    fits_buckets, high_of, histogram, lemma_below_bound, lemma_bucket_range, lemma_lower_len,
    lemma_occupancy_bound, lemma_total_is_below, lower_code, occupancy, strictly_increasing,
    width_of,
};
use crate::store::WordStore;
use crate::unary::{total, unary_code};
use crate::word::low_mask_of;

verus! {

/// An Elias-Fano encoded set over the word storage `V`.
#[derive(Debug)]
pub struct EliasFano<V: WordStore> {
    upper_bits: Bits<V>,
    lower_bits: Bits<V>,
    num_lower_bits: usize,
    num_upper_bits: usize,
    size: usize,
}

impl<V: WordStore> View for EliasFano<V> {
    type V = Encoded;

    closed spec fn view(&self) -> Encoded {
        Encoded {
            size: self.size,
            num_upper_bits: self.num_upper_bits,
            num_lower_bits: self.num_lower_bits,
            upper: self.upper_bits.words(),
            lower: self.lower_bits.words(),
        }
    }
}

impl<V: WordStore> EliasFano<V> {
    /// Both bit vectors are well formed.
    pub closed spec fn wf(&self) -> bool {
        self.upper_bits.wf() && self.lower_bits.wf()
    }

    /// The value at sorted position `index`, or nothing from position `size`
    /// on.  The low bits of the value are read from the lower vector, its high
    /// part is the distance from `index` to the set bit of rank `index` in the
    /// upper vector.
    pub fn get(&self, index: usize) -> (r: Option<usize>)
        requires
            self.wf(),
        ensures
            r == self@.get(index as int),
            forall|ids: Seq<usize>| #[trigger]
                self@.holds(ids) ==> r == if index < ids.len() {
                    Some(ids[index as int])
                } else {
                    None
                },
    {
        proof {
            assert forall|ids: Seq<usize>| #[trigger] self@.holds(ids) implies self@.get(
                index as int,
            ) == if index < ids.len() {
                Some(ids[index as int])
            } else {
                None
            } by {
                if index < ids.len() {
                    lemma_get_recovers(self@, ids, index as int);
                }
            }
        }
        let width: usize = self.num_lower_bits;
        if index >= self.size || width > 64 {
            return None;
        }
        proof {
            self.lower_bits.lemma_wf_fits();
            self.upper_bits.lemma_wf_fits();
            assert(0 <= index * width) by (nonlinear_arith);
        }
        let start: usize = match index.checked_mul(width) {
            Some(s) => s,
            None => {
                return None;
            },
        };
        let end: usize = match start.checked_add(width) {
            Some(e) => e,
            None => {
                return None;
            },
        };
        let low: u64 = match self.lower_bits.slice(start, end) {
            Some(v) => v,
            None => {
                return None;
            },
        };
        let p: usize = match self.upper_bits.select_1(index) {
            Some(p) => p,
            None => {
                return None;
            },
        };
        proof {
            lemma_nth_characterised(self.upper_bits@, true, index as nat);
            lemma_nth_at_least_rank(self.upper_bits@, true, index as nat, p as int);
        }
        let high: u64 = (p - index) as u64;
        let joined: u64 = if width >= 64 {
            low
        } else {
            (high << (width as u64)) | low
        };
        Some(#[verifier::truncate] (joined as usize))
    }

    /// The smallest stored value that is at least `value`, or nothing if
    /// every stored value is smaller.  The search skips the values of all
    /// buckets before the bucket of `value` and scans on from there.
    #[verifier::loop_isolation(false)]
    pub fn next_geq(&self, value: usize) -> (r: Option<usize>)
        requires
            self.wf(),
        ensures
            r == self@.next_geq(value),
            forall|ids: Seq<usize>| #[trigger] self@.holds(ids) ==> is_successor(ids, value, r),
    {
        proof {
            assert forall|ids: Seq<usize>| #[trigger] self@.holds(ids) implies is_successor(
                ids,
                value,
                self@.next_geq(value),
            ) by {
                lemma_next_geq_is_successor(self@, ids, value);
            }
        }
        let mask: u64 = if self.num_upper_bits >= 64 {
            u64::MAX
        } else {
            low_mask_of(self.num_upper_bits)
        };
        let bucket: u64 = high_of(value as u64, self.num_lower_bits) & mask;
        proof {
            lemma_bucket_range(
                value as u64,
                self.num_lower_bits as nat,
                self.num_upper_bits as nat,
            );
        }
        let start: usize = if bucket == 0 {
            0
        } else {
            let closed: usize = (bucket - 1) as usize;
            match self.upper_bits.select_0(closed) {
                Some(p) => {
                    proof {
                        lemma_nth_characterised(self.upper_bits@, false, closed as nat);
                        lemma_nth_at_least_rank(self.upper_bits@, false, closed as nat, p as int);
                    }
                    p - closed
                },
                None => {
                    return None;
                },
            }
        };
        let mut i: usize = start;
        while i < self.size
            invariant
                self.wf(),
                start <= i,
                self@.search_start(value) == Some(start as int),
                self@.scan(start as int, value) == self@.scan(i as int, value),
            decreases self.size - i,
        {
            match self.get(i) {
                Some(x) => {
                    if x >= value {
                        return Some(x);
                    }
                },
                None => {},
            }
            i += 1;
        }
        None
    }

    /// The set as bytes: a header of four integers of eight bytes each, most
    /// significant byte first, then the bytes of the upper and of the lower
    /// bit vector.  Parsing the bytes gives the content of the set back.
    pub fn as_bytes(&self) -> (out: Vec<u8>)
        requires
            self.wf(),
        ensures
            out@ == self@.to_bytes(),
            parse(out@) == Ok::<Encoded, ErrorKind>(self@),
    {
        proof {
            self.upper_bits.lemma_wf_fits();
            lemma_parse_to_bytes(self@);
        }
        let mut out: Vec<u8> = Vec::new();
        push_be(&mut out, self.size as u64);
        push_be(&mut out, self.num_upper_bits as u64);
        push_be(&mut out, self.num_lower_bits as u64);
        let mut upper: Vec<u8> = self.upper_bits.as_bytes();
        push_be(&mut out, upper.len() as u64);
        out.append(&mut upper);
        let mut lower: Vec<u8> = self.lower_bits.as_bytes();
        out.append(&mut lower);
        out
    }

    /// The stored values in increasing order, decoded one rank after the
    /// other.
    pub fn iter(&self) -> (it: std::vec::IntoIter<usize>)
        requires
            self.wf(),
        ensures
            it.remaining() == self@.values(),
            forall|ids: Seq<usize>| #[trigger] self@.holds(ids) ==> it.remaining() == ids,
    {
        proof {
            assert forall|ids: Seq<usize>| #[trigger] self@.holds(ids) implies self@.values()
                == ids by {
                lemma_values_recover(self@, ids);
            }
        }
        let mut out: Vec<usize> = Vec::new();
        let mut i: usize = 0;
        while i < self.size
            invariant
                self.wf(),
                i <= self.size,
                out@ == self@.values_upto(i as int),
            decreases self.size - i,
        {
            match self.get(i) {
                Some(x) => {
                    out.push(x);
                },
                None => {},
            }
            i += 1;
        }
        out.into_iter()
    }
}

impl EliasFano<Vec<u64>> {
    /// Encodes `ids`.  An empty sequence and one that is not strictly
    /// increasing are refused.  The number of values must leave every bit
    /// position of the two vectors within reach of a `usize`.
    ///
    /// The set decodes to `ids` provided that the largest value lands in a
    /// bucket that the upper width can name.
    #[verifier::loop_isolation(false)]
    pub fn new(ids: Vec<usize>) -> (r: Result<Self, Error>)
        requires
            64 * ids@.len() + 192 <= usize::MAX,
        ensures
            match r {
                Ok(ef) => {
                    &&& strictly_increasing(ids@)
                    &&& ef.wf()
                    &&& ef@.encodes(ids@)
                    &&& fits_buckets(ids@, ef@.num_lower_bits as nat, ef@.num_upper_bits as nat)
                        ==> ef@.holds(ids@)
                },
                Err(e) => if strictly_increasing(ids@) {
                    ids@.len() == 0 && e.kind() == ErrorKind::NoIds
                } else {
                    e.kind() == ErrorKind::UnsortedIds
                },
            },
    {
        let n: usize = ids.len();
        let mut i: usize = 1;
        while i < n
            invariant
                1 <= i,
                i <= n || n == 0,
                forall|a: int, b: int| 0 <= a < b < i ==> ids@[a] < ids@[b],
            decreases n - i,
        {
            if ids[i - 1] >= ids[i] {
                return Err(Error::unsorted_ids());
            }
            i += 1;
        }
        if n == 0 {
            return Err(Error::no_ids());
        }
        let largest: usize = ids[n - 1];
        let lower_width: usize = width_of(largest as u64, n as u64).0;
        let upper: (usize, u128) = width_of(n as u64, 1);
        let upper_width: usize = upper.0;
        let buckets: usize = upper.1 as usize;
        let mask: u64 = low_mask_of(upper_width);
        let ghost lw = lower_width as nat;
        let ghost uw = upper_width as nat;

        let mut counts: Vec<usize> = Vec::new();
        let mut b: usize = 0;
        while b < buckets
            invariant
                b <= buckets,
                counts@.len() == b,
                forall|j: int| 0 <= j < b ==> counts@[j] == 0,
            decreases buckets - b,
        {
            counts.push(0);
            b += 1;
        }

        let mut lower_bits: Bits<Vec<u64>> = Bits::new();
        let mut k: usize = 0;
        assert(lower_code(ids@.take(0), lw) =~= Seq::<bool>::empty());
        while k < n
            invariant
                k <= n,
                lower_bits.appendable(),
                lower_bits.content() == lower_code(ids@.take(k as int), lw),
                counts@.len() == buckets,
                forall|j: int|
                    0 <= j < buckets ==> counts@[j] == occupancy(ids@.take(k as int), lw, uw, j),
            decreases n - k,
        {
            let id: u64 = ids[k] as u64;
            let ghost seen = ids@.take(k as int);
            let ghost next = ids@.take(k + 1);
            proof {
                lemma_lower_len(seen, lw);
                assert(seen.len() * lw <= 64 * k) by (nonlinear_arith)
                    requires
                        seen.len() == k,
                        lw <= 64,
                ;
                assert(lower_bits.content().len() == lower_bits.len());
                assert(next.drop_last() =~= seen);
                assert(next.last() == ids@[k as int]);
                lemma_bucket_range(id, lw, uw);
            }
            lower_bits.append_from(id, lower_width);
            let slot: usize = (high_of(id, lower_width) & mask) as usize;
            proof {
                lemma_occupancy_bound(seen, lw, uw, slot as int);
            }
            let c: usize = counts[slot];
            counts.set(slot, c + 1);
            k += 1;
        }
        assert(ids@.take(n as int) =~= ids@);

        let ghost hist = histogram(ids@, lw, uw);
        let mut upper_bits: Bits<Vec<u64>> = Bits::new();
        let mut b: usize = 0;
        assert(unary_code(hist.take(0)) =~= Seq::<bool>::empty());
        while b < buckets
            invariant
                b <= buckets,
                upper_bits.appendable(),
                upper_bits.content() == unary_code(hist.take(b as int)),
                upper_bits.len() == total(hist, b as int) + b,
            decreases buckets - b,
        {
            let ghost done = hist.take(b as int);
            let ghost next = hist.take(b + 1);
            proof {
                lemma_total_is_below(ids@, lw, uw, b + 1);
                lemma_below_bound(ids@, lw, uw, b + 1);
                assert(next.drop_last() =~= done);
                assert(next.last() == hist[b as int]);
                assert(run(false, 1) =~= seq![false]);
            }
            upper_bits.append_ones(counts[b]);
            upper_bits.append_zeros(1);
            b += 1;
        }
        assert(hist.take(buckets as int) =~= hist);
        let ef = Self {
            upper_bits,
            lower_bits,
            num_lower_bits: lower_width,
            num_upper_bits: upper_width,
            size: n,
        };
        proof {
            ef.lower_bits.lemma_holds_content();
            ef.upper_bits.lemma_holds_content();
        }
        Ok(ef)
    }
}

impl<'a> EliasFano<&'a [u8]> {
    /// Opens the set serialised in `data` without copying it: both bit
    /// vectors read their words from `data`.  Every bit position of the
    /// buffer must be within reach of a `usize`.
    pub fn from_bytes(data: &'a [u8]) -> (r: Result<Self, Error>)
        requires
            8 * data@.len() + 64 <= usize::MAX,
        ensures
            match parse(data@) {
                Ok(m) => r matches Ok(ef) && ef.wf() && ef@ == m,
                Err(k) => r matches Err(e) && e.kind() == k,
            },
    {
        let n: usize = data.len();
        if n < HEADER_BYTES {
            return Err(Error::invalid_bits_data(n));
        }
        let announced: u64 = read_be(data, 24);
        let rest: usize = n - HEADER_BYTES;
        if announced > rest as u64 {
            return Err(Error::invalid_bits_data(n));
        }
        let split: usize = HEADER_BYTES + announced as usize;
        let upper_bits: Bits<&'a [u8]> = match Bits::from_bytes(
            slice_subrange(data, HEADER_BYTES, split),
        ) {
            Ok(b) => b,
            Err(e) => {
                return Err(e);
            },
        };
        let lower_bits: Bits<&'a [u8]> = match Bits::from_bytes(slice_subrange(data, split, n)) {
            Ok(b) => b,
            Err(e) => {
                return Err(e);
            },
        };
        let size: usize = #[verifier::truncate] (read_be(data, 0) as usize);
        let num_upper_bits: usize = #[verifier::truncate] (read_be(data, 8) as usize);
        let num_lower_bits: usize = #[verifier::truncate] (read_be(data, 16) as usize);
        Ok(Self { upper_bits, lower_bits, num_lower_bits, num_upper_bits, size })
    }
}

} // verus!
