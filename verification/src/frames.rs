//! Frame-level accounting: sums and impulse counts over sample frames.
//!
//! An impulse frame is the encoding of an event count: unit impulses are
//! accumulated at even indices, odd indices stay zero, and the count is
//! clamped to half the frame so an impulse can never land out of range.

use vstd::prelude::*;
use crate::fixed::UNIT;

verus! {

/// The sum of all samples of a frame.
pub open spec fn sum_of(s: Seq<i64>) -> int
    decreases s.len(),
{
    if s.len() == 0 {
        0
    } else {
        sum_of(s.drop_last()) + s.last()
    }
}

/// How many samples of a frame are nonzero.
pub open spec fn nonzero_count(s: Seq<i64>) -> int
    decreases s.len(),
{
    if s.len() == 0 {
        0
    } else {
        nonzero_count(s.drop_last()) + if s.last() != 0 { 1int } else { 0int }
    }
}

/// Appending a sample adds it to the sum and counts it when nonzero.
pub proof fn lemma_counts_push(s: Seq<i64>, x: i64)
    ensures
        sum_of(s.push(x)) == sum_of(s) + x,
        nonzero_count(s.push(x)) == nonzero_count(s) + if x != 0 { 1int } else { 0int },
{
    assert(s.push(x).drop_last() =~= s);
}

/// Replacing one sample changes the sum by the difference.
pub proof fn lemma_sum_update(s: Seq<i64>, i: int, v: i64)
    requires
        0 <= i < s.len(),
    ensures
        sum_of(s.update(i, v)) == sum_of(s) - s[i] + v,
    decreases s.len(),
{
    if i == s.len() - 1 {
        assert(s.update(i, v).drop_last() =~= s.drop_last());
        assert(s.update(i, v).last() == v);
    } else {
        assert(s.update(i, v).drop_last() =~= s.drop_last().update(i, v));
        assert(s.update(i, v).last() == s.last());
        lemma_sum_update(s.drop_last(), i, v);
    }
}

/// Replacing one sample adjusts the nonzero count by whether the old and
/// new samples are nonzero.
pub proof fn lemma_nonzero_update(s: Seq<i64>, i: int, v: i64)
    requires
        0 <= i < s.len(),
    ensures
        nonzero_count(s.update(i, v)) == nonzero_count(s)
            - (if s[i] != 0 { 1int } else { 0int })
            + (if v != 0 { 1int } else { 0int }),
    decreases s.len(),
{
    if i == s.len() - 1 {
        assert(s.update(i, v).drop_last() =~= s.drop_last());
        assert(s.update(i, v).last() == v);
    } else {
        assert(s.update(i, v).drop_last() =~= s.drop_last().update(i, v));
        assert(s.update(i, v).last() == s.last());
        lemma_nonzero_update(s.drop_last(), i, v);
    }
}

/// A frame of nonnegative samples has a nonnegative sum, and no single
/// sample exceeds it.
pub proof fn lemma_entry_le_sum(s: Seq<i64>, i: int)
    requires
        0 <= i < s.len(),
        forall|t: int| 0 <= t < s.len() ==> 0 <= #[trigger] s[t],
    ensures
        0 <= s[i] <= sum_of(s),
    decreases s.len(),
{
    lemma_sum_nonneg(s.drop_last());
    if i == s.len() - 1 {
    } else {
        assert forall|t: int| 0 <= t < s.drop_last().len() implies 0 <= #[trigger] s.drop_last()[t] by {
            assert(s.drop_last()[t] == s[t]);
        };
        lemma_entry_le_sum(s.drop_last(), i);
    }
}

/// A frame of nonnegative samples has a nonnegative sum.
pub proof fn lemma_sum_nonneg(s: Seq<i64>)
    requires
        forall|t: int| 0 <= t < s.len() ==> 0 <= #[trigger] s[t],
    ensures
        sum_of(s) >= 0,
    decreases s.len(),
{
    if s.len() > 0 {
        assert forall|t: int| 0 <= t < s.drop_last().len() implies 0 <= #[trigger] s.drop_last()[t] by {
            assert(s.drop_last()[t] == s[t]);
        };
        lemma_sum_nonneg(s.drop_last());
    }
}

/// The number of impulses actually placed for an event count: the count
/// itself, clamped to half the frame length.
pub open spec fn clamped_events(count: int, n: int) -> int {
    if count <= n / 2 {
        count
    } else {
        n / 2
    }
}

/// What the encoding of an event count looks like: a frame of length `n`
/// whose odd samples are zero, whose samples are nonnegative whole
/// impulse counts (multiples of `UNIT`), holding `k` accumulated unit
/// impulses in at most `k` distinct (even) positions.
pub open spec fn impulse_frame(s: Seq<i64>, n: int, k: int) -> bool {
    &&& s.len() == n
    &&& forall|i: int| 0 <= i < s.len() && i % 2 == 1 ==> #[trigger] s[i] == 0
    &&& forall|i: int| 0 <= i < s.len() ==> 0 <= #[trigger] s[i]
    &&& forall|i: int| 0 <= i < s.len() ==> #[trigger] s[i] % UNIT == 0
    &&& sum_of(s) == k * UNIT
    &&& nonzero_count(s) <= k
}

/// The encoding of an event count of zero is the all-zero frame.
pub proof fn lemma_no_events_all_zero(s: Seq<i64>, n: int)
    requires
        impulse_frame(s, n, 0),
    ensures
        forall|i: int| 0 <= i < s.len() ==> #[trigger] s[i] == 0,
{
    assert forall|i: int| 0 <= i < s.len() implies #[trigger] s[i] == 0 by {
        lemma_entry_le_sum(s, i);
    };
}

/// A frame of `n` zero samples.
pub fn zero_frame(n: usize) -> (v: Vec<i64>)
    ensures
        v@.len() == n,
        forall|i: int| 0 <= i < n ==> #[trigger] v@[i] == 0,
        sum_of(v@) == 0,
        nonzero_count(v@) == 0,
{
    let mut v: Vec<i64> = Vec::new();
    let mut i: usize = 0;
    while i < n
        invariant
            v@.len() == i,
            i <= n,
            forall|t: int| 0 <= t < i ==> #[trigger] v@[t] == 0,
            sum_of(v@) == 0,
            nonzero_count(v@) == 0,
        decreases n - i,
    {
        proof {
            lemma_counts_push(v@, 0);
        }
        v.push(0);
        i = i + 1;
    }
    v
}

/// A frame of `n` copies of one sample.
pub fn filled_frame(n: usize, x: i64) -> (v: Vec<i64>)
    ensures
        v@.len() == n,
        forall|i: int| 0 <= i < n ==> #[trigger] v@[i] == x,
{
    let mut v: Vec<i64> = Vec::new();
    let mut i: usize = 0;
    while i < n
        invariant
            v@.len() == i,
            i <= n,
            forall|t: int| 0 <= t < i ==> #[trigger] v@[t] == x,
        decreases n - i,
    {
        v.push(x);
        i = i + 1;
    }
    v
}

} // verus!
