//! How a sorted sequence of integers is laid out in the two bit vectors of
//! an Elias-Fano set.
//!
//! Every value is cut at `lower_width` bits.  The low parts are stored side
//! by side, one field of `lower_width` bits per value.  The high part, kept
//! to `upper_width` bits, names the bucket of the value, and the bucket sizes
//! are stored in unary.

use vstd::arithmetic::power2::{lemma2_to64, lemma_pow2_unfold, pow2};
use vstd::prelude::*;
use crate::bitseq::is_nth;
use crate::unary::{lemma_unary_one, lemma_unary_zero, total, unary_code};
use crate::word::{low_mask, unpack, word_bit};

verus! {

/// How often `unit` must be doubled to reach `value`: the least `k` with
/// `value <= unit * 2^k`.  With `unit == 1` this is the base-2 logarithm of
/// `value`, rounded up.
pub open spec fn doublings(value: nat, unit: nat) -> nat
    decreases
            (if value > unit {
                value - unit
            } else {
                0
            }),
{
    if unit == 0 || value <= unit {
        0
    } else {
        1 + doublings(value, 2 * unit)
    }
}

/// Each value is larger than the one before it.
pub open spec fn strictly_increasing(ids: Seq<usize>) -> bool {
    forall|i: int, j: int| 0 <= i < j < ids.len() ==> ids[i] < ids[j]
}

/// What is left of `id` once its `width` lowest bits are dropped.
pub open spec fn high_part(id: u64, width: nat) -> u64 {
    if width >= 64 {
        0
    } else {
        id >> (width as u64)
    }
}

/// The bucket of `id`: its high part, kept to `upper_width` bits.
pub open spec fn bucket_of(id: u64, lower_width: nat, upper_width: nat) -> u64 {
    high_part(id, lower_width) & low_mask(upper_width as u64)
}

/// The number of buckets that `upper_width` bits can name.
pub open spec fn bucket_total(upper_width: nat) -> nat {
    (low_mask(upper_width as u64) + 1) as nat
}

/// The integer with the given high part above `width` low bits.
pub open spec fn join_parts(high: u64, low: u64, width: nat) -> u64 {
    if width >= 64 {
        low
    } else {
        (high << (width as u64)) | low
    }
}

/// The number of values that fall into bucket `b`.
pub open spec fn occupancy(ids: Seq<usize>, lower_width: nat, upper_width: nat, b: int) -> nat
    decreases ids.len(),
{
    if ids.len() == 0 {
        0
    } else {
        occupancy(ids.drop_last(), lower_width, upper_width, b) + if bucket_of(
            ids.last() as u64,
            lower_width,
            upper_width,
        ) == b {
            1nat
        } else {
            0nat
        }
    }
}

/// The number of values that fall into a bucket before `b`.
pub open spec fn below(ids: Seq<usize>, lower_width: nat, upper_width: nat, b: int) -> nat
    decreases ids.len(),
{
    if ids.len() == 0 {
        0
    } else {
        below(ids.drop_last(), lower_width, upper_width, b) + if bucket_of(
            ids.last() as u64,
            lower_width,
            upper_width,
        ) < b {
            1nat
        } else {
            0nat
        }
    }
}

/// The size of every bucket, in bucket order.
pub open spec fn histogram(ids: Seq<usize>, lower_width: nat, upper_width: nat) -> Seq<nat> {
    Seq::new(bucket_total(upper_width), |b: int| occupancy(ids, lower_width, upper_width, b))
}

/// The low parts of all values side by side, each least significant bit
/// first.
pub open spec fn lower_code(ids: Seq<usize>, lower_width: nat) -> Seq<bool>
    decreases ids.len(),
{
    if ids.len() == 0 {
        Seq::empty()
    } else {
        lower_code(ids.drop_last(), lower_width) + unpack(ids.last() as u64, lower_width)
    }
}

/// The bucket sizes in unary, in bucket order.
pub open spec fn upper_code(ids: Seq<usize>, lower_width: nat, upper_width: nat) -> Seq<bool> {
    unary_code(histogram(ids, lower_width, upper_width))
}

/// The largest value lands in a bucket that `upper_width` bits can name, so
/// that no high part is cut when buckets are assigned.
pub open spec fn fits_buckets(ids: Seq<usize>, lower_width: nat, upper_width: nat) -> bool {
    ids.len() > 0 ==> high_part(ids.last() as u64, lower_width) <= low_mask(upper_width as u64)
}

/// Computes the high part of `id`.
pub fn high_of(id: u64, width: usize) -> (h: u64)
    ensures
        h == high_part(id, width as nat),
{
    if width >= 64 {
        0
    } else {
        id >> (width as u64)
    }
}

/// Larger values have high parts that are at least as large.
pub proof fn lemma_high_monotone(a: u64, b: u64, width: nat)
    requires
        a <= b,
    ensures
        high_part(a, width) <= high_part(b, width),
{
    if width < 64 {
        let w = width as u64;
        assert(a >> w <= b >> w) by (bit_vector)
            requires
                a <= b,
                w < 64,
        ;
    }
}

/// A bucket never exceeds the high part it was cut from, and always has a
/// slot in the histogram.
pub proof fn lemma_bucket_range(id: u64, lower_width: nat, upper_width: nat)
    ensures
        high_part(id, lower_width) <= id,
        bucket_of(id, lower_width, upper_width) <= high_part(id, lower_width),
        bucket_of(id, lower_width, upper_width) < bucket_total(upper_width),
        high_part(id, lower_width) <= low_mask(upper_width as u64) ==> bucket_of(
            id,
            lower_width,
            upper_width,
        ) == high_part(id, lower_width),
{
    let h = high_part(id, lower_width);
    let m = low_mask(upper_width as u64);
    if lower_width < 64 {
        let w = lower_width as u64;
        assert(id >> w <= id) by (bit_vector);
    }
    assert(h & m <= h && h & m <= m && (h <= m ==> h & m == h)) by (bit_vector)
        requires
            m == 0xffff_ffff_ffff_ffffu64 || exists|k: u64|
                k < 64 && m == !(0xffff_ffff_ffff_ffffu64 << k),
    ;
}

/// Cutting a value and joining the parts again gives the value back.
pub proof fn lemma_join_parts(id: u64, width: nat)
    requires
        width <= 64,
    ensures
        join_parts(high_part(id, width), id & low_mask(width as u64), width) == id,
{
    if width < 64 {
        let w = width as u64;
        assert(((id >> w) << w) | (id & !(0xffff_ffff_ffff_ffffu64 << w)) == id) by (bit_vector)
            requires
                w < 64,
        ;
    } else {
        assert(id & 0xffff_ffff_ffff_ffffu64 == id) by (bit_vector);
    }
}

/// `doublings(value, unit)` is the least `k` with `value <= unit * 2^k`: that
/// many doublings reach `value`, and one fewer falls short of it.
pub proof fn lemma_doublings_least(value: nat, unit: nat)
    requires
        unit >= 1,
    ensures
        value <= unit * pow2(doublings(value, unit)),
        doublings(value, unit) > 0 ==> unit * pow2((doublings(value, unit) - 1) as nat) < value,
    decreases
            (if value > unit {
                value - unit
            } else {
                0
            }),
{
    lemma2_to64();
    if value > unit {
        let d = doublings(value, 2 * unit);
        lemma_doublings_least(value, 2 * unit);
        lemma_pow2_unfold(d + 1);
        assert(unit * pow2(d + 1) == (2 * unit) * pow2(d)) by (nonlinear_arith)
            requires
                pow2(d + 1) == 2 * pow2(d),
        ;
        if d > 0 {
            lemma_pow2_unfold(d);
            assert(unit * pow2(d) == (2 * unit) * pow2((d - 1) as nat)) by (nonlinear_arith)
                requires
                    pow2(d) == 2 * pow2((d - 1) as nat),
            ;
        } else {
            assert(unit * pow2(0) == unit) by (nonlinear_arith)
                requires
                    pow2(0) == 1,
            ;
        }
    } else {
        assert(unit * pow2(0) == unit) by (nonlinear_arith)
            requires
                pow2(0) == 1,
        ;
    }
}

/// One more bit doubles what a mask can count.
pub proof fn lemma_mask_step(d: u64)
    requires
        d < 64,
    ensures
        low_mask((d + 1) as u64) + 1 == 2 * (low_mask(d) + 1),
{
    if d == 63 {
        assert(0xffff_ffff_ffff_ffffu64 + 1 == 2 * (!(0xffff_ffff_ffff_ffffu64 << 63) + 1))
            by (bit_vector);
    } else {
        let e: u64 = (d + 1) as u64;
        assert(!(0xffff_ffff_ffff_ffffu64 << e) + 1 == 2 * (!(0xffff_ffff_ffff_ffffu64 << d) + 1))
            by (bit_vector)
            requires
                d < 63,
                e == d + 1,
        ;
    }
}

/// `upper_width` bits name `2^upper_width` buckets.
pub proof fn lemma_bucket_total_is_power(upper_width: nat)
    requires
        upper_width <= 64,
    ensures
        bucket_total(upper_width) == pow2(upper_width),
    decreases upper_width,
{
    if upper_width == 0 {
        assert(low_mask(0) == 0) by (bit_vector);
        lemma2_to64();
    } else {
        let less = (upper_width - 1) as nat;
        lemma_bucket_total_is_power(less);
        lemma_mask_step(less as u64);
        lemma_pow2_unfold(upper_width);
    }
}

/// From a unit of more than `j` bits, a value of 64 bits is reached in at
/// most `64 - j` doublings.
proof fn lemma_doublings_from(value: nat, unit: nat, j: u64)
    requires
        j <= 64,
        unit >= low_mask(j) + 1,
        value <= u64::MAX,
    ensures
        doublings(value, unit) <= 64 - j,
    decreases 64 - j,
{
    if value > unit {
        assert(low_mask(64) == u64::MAX);
        lemma_mask_step(j);
        lemma_doublings_from(value, 2 * unit, (j + 1) as u64);
    }
}

/// A value of 64 bits is reached from any unit in at most 64 doublings.
pub proof fn lemma_doublings_bound(value: nat, unit: nat)
    requires
        unit >= 1,
        value <= u64::MAX,
    ensures
        doublings(value, unit) <= 64,
{
    assert(low_mask(0) == 0) by (bit_vector);
    lemma_doublings_from(value, unit, 0);
}

/// Counts how often `unit` must be doubled to reach `value`, and returns the
/// count with the multiple of `unit` that was reached.
pub fn width_of(value: u64, unit: u64) -> (r: (usize, u128))
    requires
        unit >= 1,
    ensures
        r.0 == doublings(value as nat, unit as nat),
        r.0 <= 64,
        value <= r.1,
        r.0 == 0 ==> r.1 == unit,
        r.0 > 0 ==> r.1 < 2 * value,
        unit == 1 ==> r.1 == low_mask(r.0 as u64) + 1,
{
    let mut cap: u128 = unit as u128;
    let mut d: usize = 0;
    proof {
        assert(low_mask(0) == 0) by (bit_vector);
    }
    while cap < value as u128
        invariant
            unit >= 1,
            d <= 64,
            cap >= low_mask(d as u64) + 1,
            unit == 1 ==> cap == low_mask(d as u64) + 1,
            d == 0 ==> cap == unit,
            d > 0 ==> cap < 2 * value,
            doublings(value as nat, unit as nat) == d + doublings(value as nat, cap as nat),
        decreases 64 - d,
    {
        proof {
            assert(low_mask(64) == u64::MAX);
            lemma_mask_step(d as u64);
        }
        cap = cap * 2;
        d += 1;
    }
    (d, cap)
}

/// No more values fall before a bucket than there are values.
pub proof fn lemma_below_bound(ids: Seq<usize>, lw: nat, uw: nat, b: int)
    ensures
        below(ids, lw, uw, b) <= ids.len(),
    decreases ids.len(),
{
    if ids.len() > 0 {
        lemma_below_bound(ids.drop_last(), lw, uw, b);
    }
}

/// No bucket holds more values than there are values.
pub proof fn lemma_occupancy_bound(ids: Seq<usize>, lw: nat, uw: nat, b: int)
    ensures
        occupancy(ids, lw, uw, b) <= ids.len(),
    decreases ids.len(),
{
    if ids.len() > 0 {
        lemma_occupancy_bound(ids.drop_last(), lw, uw, b);
    }
}

/// Every value falls before the end of the buckets.
pub proof fn lemma_below_all(ids: Seq<usize>, lw: nat, uw: nat)
    ensures
        below(ids, lw, uw, bucket_total(uw) as int) == ids.len(),
    decreases ids.len(),
{
    if ids.len() > 0 {
        lemma_below_all(ids.drop_last(), lw, uw);
        lemma_bucket_range(ids.last() as u64, lw, uw);
    }
}

/// Counting up to the next bucket adds the size of bucket `b`.
pub proof fn lemma_below_step(ids: Seq<usize>, lw: nat, uw: nat, b: int)
    ensures
        below(ids, lw, uw, b + 1) == below(ids, lw, uw, b) + occupancy(ids, lw, uw, b),
    decreases ids.len(),
{
    if ids.len() > 0 {
        lemma_below_step(ids.drop_last(), lw, uw, b);
    }
}

/// No value falls before the first bucket.
proof fn lemma_below_zero(ids: Seq<usize>, lw: nat, uw: nat)
    ensures
        below(ids, lw, uw, 0) == 0,
    decreases ids.len(),
{
    if ids.len() > 0 {
        lemma_below_zero(ids.drop_last(), lw, uw);
    }
}

/// The prefix sums of the histogram count the values in earlier buckets.
pub proof fn lemma_total_is_below(ids: Seq<usize>, lw: nat, uw: nat, b: int)
    requires
        0 <= b <= bucket_total(uw),
    ensures
        total(histogram(ids, lw, uw), b) == below(ids, lw, uw, b),
    decreases b,
{
    if b == 0 {
        lemma_below_zero(ids, lw, uw);
    } else {
        lemma_total_is_below(ids, lw, uw, b - 1);
        lemma_below_step(ids, lw, uw, b - 1);
    }
}

/// If every value from index `i` on falls into bucket `b` or later, at most
/// `i` values fall before `b`.
pub proof fn lemma_below_at_most(ids: Seq<usize>, lw: nat, uw: nat, b: int, i: int)
    requires
        0 <= i,
        forall|j: int| i <= j < ids.len() ==> bucket_of(ids[j] as u64, lw, uw) >= b,
    ensures
        below(ids, lw, uw, b) <= i,
    decreases ids.len(),
{
    if ids.len() <= i {
        lemma_below_bound(ids, lw, uw, b);
    } else {
        let head = ids.drop_last();
        assert forall|j: int| i <= j < head.len() implies bucket_of(head[j] as u64, lw, uw)
            >= b by {
            assert(head[j] == ids[j]);
        }
        lemma_below_at_most(head, lw, uw, b, i);
        assert(bucket_of(ids[ids.len() - 1] as u64, lw, uw) >= b);
    }
}

/// If every value up to index `i` falls into a bucket before `b`, more than
/// `i` values fall before `b`.
pub proof fn lemma_below_at_least(ids: Seq<usize>, lw: nat, uw: nat, b: int, i: int)
    requires
        0 <= i < ids.len(),
        forall|j: int| 0 <= j <= i ==> bucket_of(ids[j] as u64, lw, uw) < b,
    ensures
        below(ids, lw, uw, b) > i,
    decreases ids.len(),
{
    let head = ids.drop_last();
    if i < ids.len() - 1 {
        assert forall|j: int| 0 <= j <= i implies bucket_of(head[j] as u64, lw, uw) < b by {
            assert(head[j] == ids[j]);
        }
        lemma_below_at_least(head, lw, uw, b, i);
    } else {
        assert(bucket_of(ids[i] as u64, lw, uw) < b);
        if i > 0 {
            assert forall|j: int| 0 <= j <= i - 1 implies bucket_of(head[j] as u64, lw, uw)
                < b by {
                assert(head[j] == ids[j]);
            }
            lemma_below_at_least(head, lw, uw, b, i - 1);
        }
    }
}

/// Among increasing values whose buckets are not cut, buckets never go down.
pub proof fn lemma_buckets_ordered(ids: Seq<usize>, lw: nat, uw: nat, i: int, j: int)
    requires
        strictly_increasing(ids),
        fits_buckets(ids, lw, uw),
        0 <= i <= j < ids.len(),
    ensures
        bucket_of(ids[i] as u64, lw, uw) == high_part(ids[i] as u64, lw),
        bucket_of(ids[j] as u64, lw, uw) == high_part(ids[j] as u64, lw),
        bucket_of(ids[i] as u64, lw, uw) <= bucket_of(ids[j] as u64, lw, uw),
{
    let last = ids[ids.len() - 1];
    assert(ids[i] <= ids[j]);
    assert(ids[j] <= last);
    lemma_high_monotone(ids[i] as u64, ids[j] as u64, lw);
    lemma_high_monotone(ids[j] as u64, last as u64, lw);
    lemma_bucket_range(ids[i] as u64, lw, uw);
    lemma_bucket_range(ids[j] as u64, lw, uw);
}

/// Among increasing values whose buckets are not cut, the values that fall
/// before bucket `b` are exactly the first `below(.., b)` ones.
pub proof fn lemma_below_splits(ids: Seq<usize>, lw: nat, uw: nat, b: int, j: int)
    requires
        strictly_increasing(ids),
        fits_buckets(ids, lw, uw),
        0 <= j < ids.len(),
    ensures
        j < below(ids, lw, uw, b) <==> bucket_of(ids[j] as u64, lw, uw) < b,
{
    if bucket_of(ids[j] as u64, lw, uw) < b {
        assert forall|k: int| 0 <= k <= j implies bucket_of(ids[k] as u64, lw, uw) < b by {
            lemma_buckets_ordered(ids, lw, uw, k, j);
        }
        lemma_below_at_least(ids, lw, uw, b, j);
    } else {
        assert forall|k: int| j <= k < ids.len() implies bucket_of(ids[k] as u64, lw, uw)
            >= b by {
            lemma_buckets_ordered(ids, lw, uw, j, k);
        }
        lemma_below_at_most(ids, lw, uw, b, j);
    }
}

/// In the upper code, the set bit of rank `i` sits `high part of value i`
/// positions beyond `i`.
pub proof fn lemma_upper_one(ids: Seq<usize>, lw: nat, uw: nat, i: int)
    requires
        strictly_increasing(ids),
        fits_buckets(ids, lw, uw),
        0 <= i < ids.len(),
    ensures
        is_nth(upper_code(ids, lw, uw), true, i as nat, i + high_part(ids[i] as u64, lw)),
{
    let h = bucket_of(ids[i] as u64, lw, uw) as int;
    let counts = histogram(ids, lw, uw);
    lemma_buckets_ordered(ids, lw, uw, i, i);
    lemma_bucket_range(ids[i] as u64, lw, uw);
    lemma_below_splits(ids, lw, uw, h, i);
    lemma_below_splits(ids, lw, uw, h + 1, i);
    lemma_below_step(ids, lw, uw, h);
    lemma_total_is_below(ids, lw, uw, h);
    let j = i - below(ids, lw, uw, h);
    lemma_unary_one(counts, h, j);
}

/// In the upper code, the unset bit of rank `b` closes bucket `b`: it sits
/// `b` positions beyond the number of values in the buckets up to `b`.
pub proof fn lemma_upper_zero(ids: Seq<usize>, lw: nat, uw: nat, b: int)
    requires
        0 <= b < bucket_total(uw),
    ensures
        is_nth(upper_code(ids, lw, uw), false, b as nat, below(ids, lw, uw, b + 1) + b),
{
    lemma_total_is_below(ids, lw, uw, b + 1);
    lemma_unary_zero(histogram(ids, lw, uw), b);
}

/// The lower code holds `lower_width` bits per value, and the field of value
/// `i` holds the low bits of that value.
pub proof fn lemma_lower_field(ids: Seq<usize>, lw: nat, i: int, j: int)
    requires
        0 <= i < ids.len(),
        0 <= j < lw,
    ensures
        lower_code(ids, lw).len() == ids.len() * lw,
        0 <= i * lw + j < ids.len() * lw,
        lower_code(ids, lw)[i * lw + j] == word_bit(ids[i] as u64, j as u64),
    decreases ids.len(),
{
    let head = ids.drop_last();
    lemma_lower_len(ids, lw);
    lemma_lower_len(head, lw);
    assert(head.len() * lw + lw == ids.len() * lw) by (nonlinear_arith)
        requires
            head.len() + 1 == ids.len(),
    ;
    if i < ids.len() - 1 {
        lemma_lower_field(head, lw, i, j);
    } else {
        assert(lower_code(ids, lw)[head.len() * lw + j] == unpack(ids.last() as u64, lw)[j]);
    }
}

/// The lower code holds `lower_width` bits per value.
pub proof fn lemma_lower_len(ids: Seq<usize>, lw: nat)
    ensures
        lower_code(ids, lw).len() == ids.len() * lw,
    decreases ids.len(),
{
    if ids.len() > 0 {
        let head = ids.drop_last();
        lemma_lower_len(head, lw);
        assert(head.len() * lw + lw == ids.len() * lw) by (nonlinear_arith)
            requires
                head.len() + 1 == ids.len(),
        ;
    } else {
        assert(ids.len() * lw == 0) by (nonlinear_arith)
            requires
                ids.len() == 0,
        ;
    }
}

} // verus!
