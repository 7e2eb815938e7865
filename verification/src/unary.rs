//! The unary run-length code of a sequence of bucket sizes.
//!
//! Each bucket contributes as many set bits as it holds items, followed by
//! one unset bit.  The set bit of the `j`-th item of bucket `b` therefore
//! sits at position `total(counts, b) + b + j`, and the unset bit that closes
//! bucket `b` at position `total(counts, b + 1) + b`.

use vstd::prelude::*;
use crate::bitseq::{
    count, is_nth, lemma_count_concat, lemma_count_prefix, lemma_count_run, run,
};

verus! {

/// The number of items in the first `b` buckets.
pub open spec fn total(counts: Seq<nat>, b: int) -> nat
    decreases b,
{
    if b <= 0 {
        0
    } else {
        total(counts, b - 1) + counts[b - 1]
    }
}

/// For each bucket in order, one set bit per item and then one unset bit.
pub open spec fn unary_code(counts: Seq<nat>) -> Seq<bool>
    decreases counts.len(),
{
    if counts.len() == 0 {
        Seq::empty()
    } else {
        unary_code(counts.drop_last()) + run(true, counts.last()) + seq![false]
    }
}

/// Prefix sums depend only on the buckets they add up.
pub proof fn lemma_total_ext(c: Seq<nat>, d: Seq<nat>, b: int)
    requires
        forall|i: int| 0 <= i < b ==> c[i] == d[i],
    ensures
        total(c, b) == total(d, b),
    decreases b,
{
    if b > 0 {
        lemma_total_ext(c, d, b - 1);
    }
}

/// The code holds one set bit per item and one unset bit per bucket.
pub proof fn lemma_unary_totals(counts: Seq<nat>)
    ensures
        unary_code(counts).len() == total(counts, counts.len() as int) + counts.len(),
        count(unary_code(counts), true, unary_code(counts).len() as int) == total(
            counts,
            counts.len() as int,
        ),
        count(unary_code(counts), false, unary_code(counts).len() as int) == counts.len(),
    decreases counts.len(),
{
    if counts.len() > 0 {
        let head = counts.drop_last();
        let k = counts.last();
        let u0 = unary_code(head);
        let u1 = u0 + run(true, k);
        let u = u1 + seq![false];
        lemma_unary_totals(head);
        lemma_total_ext(counts, head, head.len() as int);
        lemma_count_concat(u0, run(true, k), true, k as int);
        lemma_count_concat(u0, run(true, k), false, k as int);
        lemma_count_run(true, k, true, k as int);
        lemma_count_run(true, k, false, k as int);
        lemma_count_concat(u1, seq![false], true, 1);
        lemma_count_concat(u1, seq![false], false, 1);
        assert(count(seq![false], true, 1) == 0) by {
            assert(count(seq![false], true, 0) == 0);
        }
        assert(count(seq![false], false, 1) == 1) by {
            assert(count(seq![false], false, 0) == 0);
        }
    }
}

/// The bucket of the item of rank `r`, and the rank of the item within that
/// bucket.
pub proof fn lemma_unary_locate(counts: Seq<nat>, r: int) -> (at: (int, int))
    requires
        0 <= r < total(counts, counts.len() as int),
    ensures
        0 <= at.0 < counts.len(),
        0 <= at.1 < counts[at.0],
        total(counts, at.0) + at.1 == r,
    decreases counts.len(),
{
    let last = counts.len() - 1;
    if r >= total(counts, last) {
        (last, r - total(counts, last))
    } else {
        let head = counts.drop_last();
        lemma_total_ext(counts, head, last);
        let at = lemma_unary_locate(head, r);
        lemma_total_ext(counts, head, at.0);
        at
    }
}

/// The set bit of item `j` of bucket `b`: its position, and its rank among
/// the set bits.
pub proof fn lemma_unary_one(counts: Seq<nat>, b: int, j: int)
    requires
        0 <= b < counts.len(),
        0 <= j < counts[b],
    ensures
        is_nth(unary_code(counts), true, (total(counts, b) + j) as nat, total(counts, b) + b + j),
    decreases counts.len(),
{
    let head = counts.drop_last();
    let k = counts.last();
    let u0 = unary_code(head);
    let u1 = u0 + run(true, k);
    let u = u1 + seq![false];
    let p = total(counts, b) + b + j;
    lemma_unary_totals(head);
    lemma_total_ext(counts, head, head.len() as int);
    if b < counts.len() - 1 {
        lemma_unary_one(head, b, j);
        lemma_total_ext(counts, head, b);
        lemma_count_prefix(u0, run(true, k), true, p);
        lemma_count_prefix(u1, seq![false], true, p);
        assert(u[p] == u0[p]);
    } else {
        lemma_count_concat(u0, run(true, k), true, j);
        lemma_count_run(true, k, true, j);
        lemma_count_prefix(u1, seq![false], true, p);
        assert(u[p] == run(true, k)[j]);
    }
}

/// The unset bit that closes bucket `b`: its position, and its rank among
/// the unset bits.
pub proof fn lemma_unary_zero(counts: Seq<nat>, b: int)
    requires
        0 <= b < counts.len(),
    ensures
        is_nth(unary_code(counts), false, b as nat, total(counts, b + 1) + b),
    decreases counts.len(),
{
    let head = counts.drop_last();
    let k = counts.last();
    let u0 = unary_code(head);
    let u1 = u0 + run(true, k);
    let u = u1 + seq![false];
    let p = total(counts, b + 1) + b;
    lemma_unary_totals(head);
    lemma_total_ext(counts, head, head.len() as int);
    if b < counts.len() - 1 {
        lemma_unary_zero(head, b);
        lemma_total_ext(counts, head, b + 1);
        lemma_count_prefix(u0, run(true, k), false, p);
        lemma_count_prefix(u1, seq![false], false, p);
        assert(u[p] == u0[p]);
    } else {
        lemma_count_concat(u0, run(true, k), false, k as int);
        lemma_count_run(true, k, false, k as int);
        lemma_count_concat(u1, seq![false], false, 0);
        assert(u[p] == seq![false][0]);
    }
}

} // verus!
