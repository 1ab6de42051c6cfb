//! What a histogram is: a count for every flat index of its layout, and the extremes that
//! were recorded.
use crate::geometry::Bounds;
#[allow(unused_imports)]
use crate::slots;
use vstd::prelude::*;

verus! {

/// The sum of the first `n` counts.
pub open spec fn sum_to(counts: Seq<u64>, n: int) -> nat
    decreases n,
{
    if n <= 0 {
        0
    } else {
        sum_to(counts, n - 1) + counts[n - 1] as nat
    }
}

/// How many of the first `n` counts are not zero.
pub open spec fn nonzero_to(counts: Seq<u64>, n: int) -> nat
    decreases n,
{
    if n <= 0 {
        0
    } else if counts[n - 1] != 0 {
        nonzero_to(counts, n - 1) + 1
    } else {
        nonzero_to(counts, n - 1)
    }
}

/// `n`, or `u64::MAX` where `n` is larger.
pub open spec fn saturate(n: nat) -> u64 {
    if n <= u64::MAX {
        n as u64
    } else {
        u64::MAX
    }
}

/// Some count is not zero.
pub open spec fn any_nonzero(counts: Seq<u64>) -> bool {
    exists|i: int| 0 <= i < counts.len() && counts[i] != 0
}

/// Every count fits in `w` bytes.
pub open spec fn all_fit(counts: Seq<u64>, w: nat) -> bool {
    forall|i: int| 0 <= i < counts.len() ==> #[trigger] counts[i] <= slots::max_of_width(w)
}

/// The least width of one, two, four and eight bytes in which every count fits.
pub open spec fn least_width(counts: Seq<u64>) -> nat {
    if all_fit(counts, 1) {
        1
    } else if all_fit(counts, 2) {
        2
    } else if all_fit(counts, 4) {
        4
    } else {
        8
    }
}

/// The first index at which the counts up to and including it sum to `target` or more, if
/// there is one.
pub open spec fn reaches_at(counts: Seq<u64>, target: u64, i: int) -> bool {
    &&& 0 <= i < counts.len()
    &&& sum_to(counts, i) < target <= sum_to(counts, i + 1)
}

/// The state of a histogram.
#[verifier::ext_equal]
pub struct HistogramState {
    /// What the histogram was made for.
    pub bounds: Bounds,
    /// The count at every flat index.
    pub counts: Seq<u64>,
    /// The largest recorded value; zero where none was recorded.
    pub max_value: u64,
    /// The least recorded value that is not zero; `u64::MAX` where none was recorded.
    pub min_non_zero_value: u64,
}

impl HistogramState {
    /// A histogram into which nothing was recorded.
    pub open spec fn empty(bounds: Bounds) -> Self {
        HistogramState {
            bounds,
            counts: Seq::new(bounds.counts_len(), |i: int| 0u64),
            max_value: 0,
            min_non_zero_value: u64::MAX,
        }
    }

    /// There is a count for every index, and the extremes lie in the outermost buckets that
    /// hold a count. (The lower one matters only while bucket 0 holds none.)
    pub open spec fn wf(self) -> bool {
        let top: int = self.bounds.index_of(self.max_value) as int;
        let bottom: int = self.bounds.index_of(self.min_non_zero_value) as int;
        &&& self.bounds.valid()
        &&& self.counts.len() == self.bounds.counts_len()
        &&& !any_nonzero(self.counts) ==> self.max_value == 0 && self.min_non_zero_value
            == u64::MAX
        &&& 0 <= top < self.counts.len()
        &&& any_nonzero(self.counts) ==> self.counts[top] != 0
        &&& forall|i: int| top < i < self.counts.len() ==> #[trigger] self.counts[i] == 0
        &&& any_nonzero(self.counts) && self.counts[0] == 0 ==> {
            &&& 0 <= bottom < self.counts.len()
            &&& self.counts[bottom] != 0
            &&& forall|i: int| 0 <= i < bottom ==> #[trigger] self.counts[i] == 0
        }
    }

    /// The total count, held at `u64::MAX` where it is larger.
    pub open spec fn total(self) -> u64 {
        saturate(sum_to(self.counts, self.counts.len() as int))
    }

    /// The number of indices that hold a count.
    pub open spec fn populated(self) -> nat {
        nonzero_to(self.counts, self.counts.len() as int)
    }

    /// `value` has a tracked index.
    pub open spec fn tracks(self, value: u64) -> bool {
        self.bounds.index_of(value) < self.counts.len()
    }

    /// The count that `value` shares with its equivalents; zero where it is not tracked.
    pub open spec fn count_at(self, value: u64) -> u64 {
        if self.tracks(value) {
            self.counts[self.bounds.index_of(value) as int]
        } else {
            0
        }
    }

    /// The state after `count` occurrences of the tracked value `value`.
    pub open spec fn recorded(self, value: u64, count: u64) -> Self {
        let i: int = self.bounds.index_of(value) as int;
        if count == 0 {
            self
        } else {
            HistogramState {
                counts: self.counts.update(i, saturate(self.counts[i] as nat + count as nat)),
                max_value: if value > self.max_value {
                    value
                } else {
                    self.max_value
                },
                min_non_zero_value: if value != 0 && value < self.min_non_zero_value {
                    value
                } else {
                    self.min_non_zero_value
                },
                ..self
            }
        }
    }

    /// The lowest recorded value, as far as it can be told from its equivalents: zero where
    /// bucket 0 holds a count or nothing was recorded.
    pub open spec fn min(self) -> nat {
        if self.total() == 0 || self.counts[0] != 0 {
            0
        } else {
            self.bounds.lowest_equivalent(self.min_non_zero_value)
        }
    }

    /// The highest recorded value, as far as it can be told from its equivalents.
    pub open spec fn max(self) -> nat {
        if self.max_value == 0 {
            0
        } else {
            self.bounds.highest_equivalent(self.max_value)
        }
    }

    /// The value at which the counts, summed from the lowest one up, reach `count`: the
    /// lowest or the highest of the equivalent values there. The first value is asked for
    /// by 1, and by 0 too. Zero where the counts do not sum to `count`.
    pub open spec fn value_at_count(self, count: u64, lowest: bool) -> nat {
        let target: u64 = if count == 0 {
            1
        } else {
            count
        };
        if sum_to(self.counts, self.counts.len() as int) < target {
            0
        } else {
            let i = choose|i: int| reaches_at(self.counts, target, i);
            let v = self.bounds.value_of(i as nat) as u64;
            if lowest {
                self.bounds.lowest_equivalent(v)
            } else {
                self.bounds.highest_equivalent(v)
            }
        }
    }
}

/// Sums grow with the number of counts.
pub proof fn lemma_sum_monotone(counts: Seq<u64>, i: int, j: int)
    requires
        i <= j,
    ensures
        sum_to(counts, i) <= sum_to(counts, j),
    decreases j - i,
{
    if i < j {
        lemma_sum_monotone(counts, i, j - 1);
    }
}

/// A sum is zero exactly when all its counts are.
pub proof fn lemma_sum_zero(counts: Seq<u64>, n: int)
    requires
        0 <= n <= counts.len(),
    ensures
        sum_to(counts, n) == 0 <==> (forall|i: int| 0 <= i < n ==> counts[i] == 0),
    decreases n,
{
    if n > 0 {
        lemma_sum_zero(counts, n - 1);
    }
}

/// Only one index reaches a target.
pub proof fn lemma_reaches_once(counts: Seq<u64>, target: u64, i: int, j: int)
    requires
        reaches_at(counts, target, i),
        reaches_at(counts, target, j),
    ensures
        i == j,
{
    if i < j {
        lemma_sum_monotone(counts, i + 1, j);
    } else if j < i {
        lemma_sum_monotone(counts, j + 1, i);
    }
}

/// Some index reaches every target that the counts sum to.
pub proof fn lemma_reaches(counts: Seq<u64>, target: u64, n: int) -> (i: int)
    requires
        0 < target <= sum_to(counts, n),
        n <= counts.len(),
    ensures
        reaches_at(counts, target, i),
    decreases n,
{
    if target <= sum_to(counts, n - 1) {
        lemma_reaches(counts, target, n - 1)
    } else {
        n - 1
    }
}

/// Putting another count at one index changes the sums beyond it by the difference.
pub proof fn lemma_sum_update(counts: Seq<u64>, i: int, c: u64, n: int)
    requires
        0 <= i < counts.len(),
        n <= counts.len(),
    ensures
        sum_to(counts.update(i, c), n) == if i < n {
            sum_to(counts, n) - counts[i] + c
        } else {
            sum_to(counts, n) as int
        },
    decreases n,
{
    if n > 0 {
        lemma_sum_update(counts, i, c, n - 1);
    }
}

/// Adding to one count makes the total grow by as much, as far as it is not held.
pub proof fn lemma_total_update(counts: Seq<u64>, i: int, delta: u64)
    requires
        0 <= i < counts.len(),
    ensures
        ({
            let n = counts.len() as int;
            let after = counts.update(i, saturate(counts[i] as nat + delta as nat));
            saturate(sum_to(after, n)) == saturate(saturate(sum_to(counts, n)) as nat + delta as nat)
        }),
{
    let n = counts.len() as int;
    lemma_sum_update(counts, i, saturate(counts[i] as nat + delta as nat), n);
    lemma_sum_monotone(counts, i + 1, n);
}

/// Adding `delta` to one count needs the width that the old counts and the new one need.
pub proof fn lemma_least_width_update(counts: Seq<u64>, i: int, c: u64)
    requires
        0 <= i < counts.len(),
        counts[i] <= c,
    ensures
        least_width(counts.update(i, c)) == if slots::width_of(c) <= least_width(counts) {
            least_width(counts)
        } else {
            slots::width_of(c)
        },
{
    let after = counts.update(i, c);
    slots::lemma_max_of_width();
    assert forall|w: nat| slots::is_width(w) implies #[trigger] all_fit(after, w) == (all_fit(
        counts,
        w,
    ) && c <= slots::max_of_width(w)) by {
        if all_fit(after, w) {
            assert(after[i] == c);
            assert forall|j: int| 0 <= j < counts.len() implies #[trigger] counts[j]
                <= slots::max_of_width(w) by {
                if j != i {
                    assert(after[j] == counts[j]);
                }
            }
        }
    }
    assert(all_fit(counts, 8) && all_fit(after, 8));
}

impl HistogramState {
    /// Recording keeps the extremes in the outermost buckets that hold a count.
    pub proof fn lemma_recorded_wf(self, value: u64, count: u64)
        requires
            self.wf(),
            self.tracks(value),
        ensures
            self.recorded(value, count).wf(),
    {
        if count > 0 {
            let b = self.bounds;
            let after = self.recorded(value, count);
            let i: int = b.index_of(value) as int;
            let top: int = b.index_of(self.max_value) as int;
            let bottom: int = b.index_of(self.min_non_zero_value) as int;
            b.lemma_sizes();
            assert(after.counts[i] != 0);
            assert(any_nonzero(after.counts));
            if value > self.max_value {
                b.lemma_index_monotone(self.max_value, value);
            } else {
                b.lemma_index_monotone(value, self.max_value);
            }
            if any_nonzero(self.counts) {
                assert(after.counts[top] != 0);
                if value < self.min_non_zero_value {
                    b.lemma_index_monotone(value, self.min_non_zero_value);
                } else {
                    b.lemma_index_monotone(self.min_non_zero_value, value);
                }
            } else {
                b.lemma_index_monotone(0, value);
                assert forall|j: int| 0 <= j < self.counts.len() implies #[trigger] self.counts[j]
                    == 0 by {}
            }
            if after.counts[0] == 0 {
                assert(i != 0);
                assert(self.counts[0] == 0);
                b.lemma_index_zero();
            }
        }
    }
}

} // verus!
