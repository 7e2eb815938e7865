//! Rank and select on sequences of bits.
//!
//! `count(s, b, n)` is the rank of position `n`: how many of the first `n`
//! bits equal `b`.  `nth(s, b, r)` is the matching select: the position of the
//! bit equal to `b` that has exactly `r` such bits before it.

use vstd::prelude::*;

verus! {

/// How many of the first `n` bits of `s` equal `b`.
pub open spec fn count(s: Seq<bool>, b: bool, n: int) -> nat
    decreases n,
{
    if n <= 0 {
        0
    } else {
        count(s, b, n - 1) + if s[n - 1] == b {
            1nat
        } else {
            0nat
        }
    }
}

/// Whether `p` is the position of the bit equal to `b` with exactly `r` such
/// bits before it.
pub open spec fn is_nth(s: Seq<bool>, b: bool, r: nat, p: int) -> bool {
    0 <= p < s.len() && s[p] == b && count(s, b, p) == r
}

/// The position of the bit equal to `b` with exactly `r` such bits before it,
/// if `s` holds more than `r` bits equal to `b`.
pub open spec fn nth(s: Seq<bool>, b: bool, r: nat) -> Option<int> {
    if exists|p: int| is_nth(s, b, r, p) {
        Some(choose|p: int| is_nth(s, b, r, p))
    } else {
        None
    }
}

/// `k` bits, all equal to `b`.
pub open spec fn run(b: bool, k: nat) -> Seq<bool> {
    Seq::new(k, |i: int| b)
}

/// Bit `p` of `s`, reading positions outside of `s` as unset.
pub open spec fn bit_at(s: Seq<bool>, p: int) -> bool {
    0 <= p < s.len() && s[p]
}

/// The `k` bits of `s` from position `start` on, reading positions outside
/// of `s` as unset.
pub open spec fn window(s: Seq<bool>, start: int, k: nat) -> Seq<bool> {
    Seq::new(k, |i: int| bit_at(s, start + i))
}

/// A rank never exceeds its position.
pub proof fn lemma_count_bounds(s: Seq<bool>, b: bool, n: int)
    ensures
        count(s, b, n) <= if n <= 0 {
            0
        } else {
            n
        },
    decreases n,
{
    if n > 0 {
        lemma_count_bounds(s, b, n - 1);
    }
}

/// Ranks never go down as the position grows.
pub proof fn lemma_count_monotone(s: Seq<bool>, b: bool, m: int, n: int)
    requires
        m <= n,
    ensures
        count(s, b, m) <= count(s, b, n),
    decreases n - m,
{
    if m < n {
        lemma_count_monotone(s, b, m, n - 1);
    }
}

/// An occurrence of `b` at `p` is counted by every rank taken beyond `p`.
pub proof fn lemma_count_passes(s: Seq<bool>, b: bool, p: int, n: int)
    requires
        0 <= p < n,
        s[p] == b,
    ensures
        count(s, b, p) < count(s, b, n),
{
    lemma_count_monotone(s, b, p + 1, n);
}

/// Ranks depend only on the bits before the position.
pub proof fn lemma_count_ext(s: Seq<bool>, t: Seq<bool>, b: bool, n: int)
    requires
        forall|i: int| 0 <= i < n ==> s[i] == t[i],
    ensures
        count(s, b, n) == count(t, b, n),
    decreases n,
{
    if n > 0 {
        lemma_count_ext(s, t, b, n - 1);
    }
}

/// Every bit is either set or unset.
pub proof fn lemma_count_complement(s: Seq<bool>, n: int)
    requires
        0 <= n,
    ensures
        count(s, true, n) + count(s, false, n) == n,
    decreases n,
{
    if n > 0 {
        lemma_count_complement(s, n - 1);
    }
}

/// Ranks in a concatenation: beyond the first part, add its total.
pub proof fn lemma_count_concat(s: Seq<bool>, t: Seq<bool>, b: bool, p: int)
    requires
        0 <= p <= t.len(),
    ensures
        count(s + t, b, s.len() + p) == count(s, b, s.len() as int) + count(t, b, p),
    decreases p,
{
    if p == 0 {
        lemma_count_ext(s + t, s, b, s.len() as int);
    } else {
        lemma_count_concat(s, t, b, p - 1);
        assert((s + t)[s.len() + p - 1] == t[p - 1]);
    }
}

/// Ranks in a concatenation: within the first part, nothing changes.
pub proof fn lemma_count_prefix(s: Seq<bool>, t: Seq<bool>, b: bool, p: int)
    requires
        0 <= p <= s.len(),
    ensures
        count(s + t, b, p) == count(s, b, p),
{
    lemma_count_ext(s + t, s, b, p);
}

/// Ranks within a run: the position itself for the bit of the run, zero for
/// the other bit.
pub proof fn lemma_count_run(b: bool, k: nat, v: bool, p: int)
    requires
        0 <= p <= k,
    ensures
        count(run(b, k), v, p) == if v == b {
            p
        } else {
            0
        },
    decreases p,
{
    if p > 0 {
        lemma_count_run(b, k, v, p - 1);
    }
}

/// Ranks over a block that starts at `m`: the rank at `m` plus the rank
/// within the block.
pub proof fn lemma_count_block(s: Seq<bool>, t: Seq<bool>, b: bool, m: int, j: int)
    requires
        0 <= m,
        0 <= j,
        forall|i: int| 0 <= i < j ==> t[i] == s[m + i],
    ensures
        count(s, b, m + j) == count(s, b, m) + count(t, b, j),
    decreases j,
{
    if j > 0 {
        lemma_count_block(s, t, b, m, j - 1);
    }
}

/// At most one position is the `r`-th occurrence of `b`.
pub proof fn lemma_nth_unique(s: Seq<bool>, b: bool, r: nat, p: int, q: int)
    requires
        is_nth(s, b, r, p),
        is_nth(s, b, r, q),
    ensures
        p == q,
{
    if p < q {
        lemma_count_passes(s, b, p, q);
    } else if q < p {
        lemma_count_passes(s, b, q, p);
    }
}

/// A position known to be the `r`-th occurrence of `b` is what `nth` names.
pub proof fn lemma_nth_found(s: Seq<bool>, b: bool, r: nat, p: int)
    requires
        is_nth(s, b, r, p),
    ensures
        nth(s, b, r) == Some(p),
{
    let q = choose|q: int| is_nth(s, b, r, q);
    lemma_nth_unique(s, b, r, p, q);
}

/// With no more than `r` occurrences of `b`, there is no `r`-th one.
pub proof fn lemma_nth_absent(s: Seq<bool>, b: bool, r: nat)
    requires
        count(s, b, s.len() as int) <= r,
    ensures
        nth(s, b, r) is None,
{
    if exists|p: int| is_nth(s, b, r, p) {
        let p = choose|p: int| is_nth(s, b, r, p);
        lemma_count_passes(s, b, p, s.len() as int);
    }
}

/// Whatever `nth` names is an occurrence of `b` of the asked rank, and when
/// it names nothing there are too few occurrences.
pub proof fn lemma_nth_characterised(s: Seq<bool>, b: bool, r: nat)
    ensures
        match nth(s, b, r) {
            Some(p) => is_nth(s, b, r, p),
            None => count(s, b, s.len() as int) <= r,
        },
{
    if !exists|p: int| is_nth(s, b, r, p) {
        lemma_no_nth_few(s, b, r, s.len() as int);
    }
}

/// If no position is the `r`-th occurrence of `b`, no rank exceeds `r`.
proof fn lemma_no_nth_few(s: Seq<bool>, b: bool, r: nat, n: int)
    requires
        0 <= n <= s.len(),
        forall|p: int| !is_nth(s, b, r, p),
    ensures
        count(s, b, n) <= r,
    decreases n,
{
    if n > 0 {
        lemma_no_nth_few(s, b, r, n - 1);
        assert(!is_nth(s, b, r, n - 1));
    }
}

/// The position of an occurrence is never below its rank.
pub proof fn lemma_nth_at_least_rank(s: Seq<bool>, b: bool, r: nat, p: int)
    requires
        is_nth(s, b, r, p),
    ensures
        r <= p,
{
    lemma_count_bounds(s, b, p);
}

} // verus!
