//! What holds of the answers that a histogram gives.
#[allow(unused_imports)]
use crate::geometry::Bounds;
#[allow(unused_imports)]
use crate::model;
#[allow(unused_imports)]
use crate::model::HistogramState;
#[allow(unused_imports)]
use crate::slots;
#[allow(unused_imports)]
use vstd::arithmetic::power::*;
use vstd::prelude::*;

verus! {

/// The sum of counts.
pub open spec fn sum_of(counts: Seq<u64>) -> int {
    counts.fold_left(0int, |sum: int, c: u64| sum + c)
}

/// The smaller of two numbers.
pub open spec fn at_most(a: int, b: int) -> int {
    if a <= b {
        a
    } else {
        b
    }
}

/// The larger of two numbers.
pub open spec fn at_least(a: int, b: int) -> int {
    if a <= b {
        b
    } else {
        a
    }
}

proof fn lemma_sum_of(counts: Seq<u64>, n: int)
    requires
        0 <= n <= counts.len(),
    ensures
        sum_of(counts.take(n)) == model::sum_to(counts, n),
    decreases n,
{
    if n > 0 {
        lemma_sum_of(counts, n - 1);
        assert(counts.take(n).drop_last() =~= counts.take(n - 1));
    }
}

proof fn lemma_filtered(counts: Seq<u64>, n: int)
    requires
        0 <= n <= counts.len(),
    ensures
        counts.take(n).filter(|c: u64| c != 0).len() == model::nonzero_to(counts, n),
    decreases n,
{
    reveal(Seq::filter);
    if n > 0 {
        lemma_filtered(counts, n - 1);
        assert(counts.take(n).drop_last() =~= counts.take(n - 1));
    }
}

/// The total is the sum of all counts, or `u64::MAX` where that is larger, and zero exactly
/// when nothing was recorded.
pub proof fn law_total(h: HistogramState)
    ensures
        h.total() == at_most(sum_of(h.counts), u64::MAX as int),
        h.total() == 0 <==> (forall|i: int| 0 <= i < h.counts.len() ==> h.counts[i] == 0),
{
    lemma_sum_of(h.counts, h.counts.len() as int);
    assert(h.counts.take(h.counts.len() as int) =~= h.counts);
    model::lemma_sum_zero(h.counts, h.counts.len() as int);
}

/// As many buckets are populated as counts are not zero.
pub proof fn law_populated(h: HistogramState)
    ensures
        h.populated() == h.counts.filter(|c: u64| c != 0).len(),
{
    lemma_filtered(h.counts, h.counts.len() as int);
    assert(h.counts.take(h.counts.len() as int) =~= h.counts);
}

/// The width is one, two, four or eight bytes; every count fits in it, and some count does not
/// fit in half of it.
pub proof fn law_width(h: HistogramState)
    ensures
        ({
            let w = model::least_width(h.counts);
            &&& w == 1 || w == 2 || w == 4 || w == 8
            &&& forall|i: int| 0 <= i < h.counts.len() ==> #[trigger] h.counts[i] < pow(256, w)
            &&& w > 1 ==> exists|i: int|
                0 <= i < h.counts.len() && #[trigger] h.counts[i] >= pow(256, w / 2)
        }),
{
    slots::lemma_max_of_width();
    reveal_with_fuel(pow, 9);
    assert(pow(256, 1) == 0x100);
    assert(pow(256, 2) == 0x1_0000);
    assert(pow(256, 4) == 0x1_0000_0000);
    assert(pow(256, 8) == 0x1_0000_0000_0000_0000);
}

/// The count of a value is the one at its index, and zero beyond the last; so the count of the
/// value that stands for an index is the one at that index.
pub proof fn law_count_at(h: HistogramState, value: u64, i: nat)
    requires
        h.wf(),
        i < h.counts.len(),
    ensures
        h.counts.len() == h.bounds.counts_len(),
        h.count_at(h.bounds.value_of(i) as u64) == h.counts[i as int],
        h.bounds.index_of(value) == i ==> h.count_at(value) == h.counts[i as int],
        h.bounds.index_of(value) >= h.counts.len() ==> h.count_at(value) == 0,
{
    h.bounds.lemma_index_of_value_of(i);
}

/// The lowest and the highest value lie in the outermost buckets that hold a count. The lowest
/// is the lowest of its equivalents, the highest the highest of them, unless it is zero.
/// Where nothing was recorded, both are zero.
pub proof fn law_extremes(h: HistogramState)
    requires
        h.wf(),
    ensures
        h.total() == 0 ==> h.min() == 0 && h.max() == 0,
        h.total() > 0 ==> {
            let first = h.bounds.index_of(h.min() as u64) as int;
            let last = h.bounds.index_of(h.max() as u64) as int;
            &&& h.min() <= h.max() <= u64::MAX
            &&& 0 <= first <= last < h.counts.len()
            &&& h.counts[first] != 0
            &&& forall|i: int| 0 <= i < first ==> #[trigger] h.counts[i] == 0
            &&& h.counts[last] != 0
            &&& forall|i: int| last < i < h.counts.len() ==> #[trigger] h.counts[i] == 0
            &&& h.bounds.lowest_equivalent(h.min() as u64) == h.min()
            &&& h.max() != 0 ==> h.bounds.highest_equivalent(h.max() as u64) == h.max()
        },
{
    let b = h.bounds;
    model::lemma_sum_zero(h.counts, h.counts.len() as int);
    b.lemma_sizes();
    b.lemma_index_zero();
    if h.total() > 0 {
        let x = h.max_value;
        let n = h.min_non_zero_value;
        assert(model::any_nonzero(h.counts));
        b.lemma_equivalents(x);
        b.lemma_equivalents(n);
        b.lemma_equivalents(0);
        b.lemma_sub_bucket(x);
        b.lemma_sub_bucket(n);
        let top = b.highest_equivalent(x) as u64;
        b.lemma_same_range(x, top);
        b.lemma_sub_bucket(top);
        b.lemma_same_range(n, b.lowest_equivalent(n) as u64);
        if h.counts[0] == 0 {
            let first = b.index_of(h.min() as u64) as int;
            let last = b.index_of(h.max() as u64) as int;
            if h.max_value == 0 {
                assert(h.counts[0] != 0);
            }
            if first > last {
                assert(h.counts[first] == 0);
            }
            if h.min() > h.max() {
                b.lemma_index_monotone(h.max() as u64, h.min() as u64);
                assert(first == last);
                b.lemma_value_of_index_of(h.min() as u64);
                b.lemma_value_of_index_of(x);
            }
        }
    }
}

proof fn lemma_nonzero_update(counts: Seq<u64>, i: int, c: u64, n: int)
    requires
        0 <= i < counts.len(),
        0 <= n <= counts.len(),
        c != 0,
    ensures
        model::nonzero_to(counts.update(i, c), n) == model::nonzero_to(counts, n) + if i < n
            && counts[i] == 0 {
            1nat
        } else {
            0nat
        },
    decreases n,
{
    if n > 0 {
        lemma_nonzero_update(counts, i, c, n - 1);
    }
}

/// What recording a value does to every answer. Its own count, which its equivalents share, and
/// the total go up by as much as was recorded, and are held at `u64::MAX`; no other count
/// changes. A bucket is newly populated where the count was zero. The lowest value becomes the
/// lower of what it was and the lowest equivalent, and the highest value the higher of what it
/// was and the highest equivalent, which a recorded zero does not have.
pub proof fn law_record(h: HistogramState, value: u64, count: u64, other: u64)
    requires
        h.wf(),
        value <= h.bounds.high || h.tracks(value),
        count > 0,
    ensures
        ({
            let b = h.bounds;
            let r = h.recorded(value, count);
            &&& h.tracks(value)
            &&& r.wf()
            &&& r.bounds == b
            &&& r.count_at(other) == if b.index_of(other) == b.index_of(value) {
                at_most(h.count_at(value) + count, u64::MAX as int)
            } else {
                h.count_at(other) as int
            }
            &&& r.total() == at_most(h.total() + count, u64::MAX as int)
            &&& r.populated() == h.populated() + if h.count_at(value) == 0 {
                1nat
            } else {
                0nat
            }
            &&& r.min() == if h.total() == 0 {
                b.lowest_equivalent(value) as int
            } else {
                at_most(h.min() as int, b.lowest_equivalent(value) as int)
            }
            &&& r.max() == if value == 0 {
                h.max() as int
            } else {
                at_least(h.max() as int, b.highest_equivalent(value) as int)
            }
        }),
{
    let b = h.bounds;
    b.lemma_tracked(value);
    let r = h.recorded(value, count);
    let i: int = b.index_of(value) as int;
    let n = h.counts.len() as int;
    h.lemma_recorded_wf(value, count);
    model::lemma_total_update(h.counts, i, count);
    lemma_nonzero_update(h.counts, i, model::saturate(h.counts[i] as nat + count as nat), n);
    model::lemma_sum_zero(h.counts, n);
    model::lemma_sum_zero(r.counts, n);
    assert(r.counts[i] != 0);
    b.lemma_sizes();
    b.lemma_index_zero();
    b.lemma_equivalents(0);
    b.lemma_equivalents(value);
    b.lemma_value_of_index_of(value);
    b.lemma_value_of_index_of(0);
    if value > h.max_value {
        crate::laws::lemma_highest_monotone(b, h.max_value, value);
    } else {
        crate::laws::lemma_highest_monotone(b, value, h.max_value);
    }
    if value <= h.min_non_zero_value {
        crate::laws::lemma_lowest_monotone(b, value, h.min_non_zero_value);
    } else {
        crate::laws::lemma_lowest_monotone(b, h.min_non_zero_value, value);
    }
}

/// Recording a value no times changes nothing.
pub proof fn law_record_none(h: HistogramState, value: u64)
    ensures
        h.recorded(value, 0) == h,
{
}

/// The value at which the counts reach `count` is the one of that rank: the counts of the
/// buckets below its own sum to less than `count`, and with its own to at least that. It is
/// the lowest of its equivalents or the highest, as asked for.
pub proof fn law_value_of_rank(h: HistogramState, count: u64, lowest: bool)
    requires
        h.wf(),
        1 <= count <= sum_of(h.counts),
    ensures
        ({
            let b = h.bounds;
            let v = h.value_at_count(count, lowest);
            let i = b.index_of(v as u64) as int;
            &&& v <= u64::MAX
            &&& 0 <= i < h.counts.len()
            &&& h.counts[i] != 0
            &&& sum_of(h.counts.take(i)) < count <= sum_of(h.counts.take(i + 1))
            &&& lowest ==> v == b.lowest_equivalent(v as u64)
            &&& !lowest ==> v == b.highest_equivalent(b.lowest_equivalent(v as u64) as u64)
        }),
{
    let b = h.bounds;
    let n = h.counts.len() as int;
    lemma_sum_of(h.counts, n);
    assert(h.counts.take(n) =~= h.counts);
    model::lemma_reaches(h.counts, count, n);
    let i = choose|i: int| model::reaches_at(h.counts, count, i);
    assert(model::reaches_at(h.counts, count, i));
    lemma_sum_of(h.counts, i);
    lemma_sum_of(h.counts, i + 1);
    b.lemma_sizes();
    b.lemma_index_of_value_of(i as nat);
    let low = b.value_of(i as nat) as u64;
    b.lemma_equivalents(low);
    let top = b.highest_equivalent(low) as u64;
    b.lemma_value_of_index_of(top);
}

/// The first rank is asked for by zero too, and a rank beyond the sum of the counts has the
/// value zero.
pub proof fn law_value_beyond_ranks(h: HistogramState, count: u64, lowest: bool)
    ensures
        h.value_at_count(0, lowest) == h.value_at_count(1, lowest),
        count > sum_of(h.counts) ==> h.value_at_count(count, lowest) == 0,
{
    let n = h.counts.len() as int;
    lemma_sum_of(h.counts, n);
    assert(h.counts.take(n) =~= h.counts);
}

} // verus!
