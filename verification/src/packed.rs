//! The sparse histogram. Its backing store grows with the number of *populated* buckets
//! rather than with the number of indices that its layout tracks, so many
//! sparsely-populated histograms cost a fraction of the dense footprint while keeping the
//! same layout and value/index mapping.
//!
//! Records are a binary search and an insert; queries are a blocked prefix sum over only
//! the populated buckets.
mod serialization;

use crate::errors::{CreationError, RecordError};
use crate::geometry::{Bounds, Geometry};
use crate::memory;
#[allow(unused_imports)]
use crate::model;
use crate::model::HistogramState;
use crate::slots::CountSlots;
#[allow(unused_imports)]
use crate::slots;
#[allow(unused_imports)]
use crate::sparse;
use vstd::prelude::*;

verus! {

/// The largest recorded value where none was recorded.
const INITIAL_MAX: u64 = 0;

/// The least recorded value that is not zero where none was recorded.
const INITIAL_MIN: u64 = u64::MAX;

/// How many counts are summed at a time.
const CHUNK: usize = 8;

/// A sparse, memory-optimised histogram.
#[derive(Debug)]
pub struct PackedHistogram {
    geom: Geometry,
    counts_len: usize,
    // populated flat indices, ascending
    idx: Vec<u32>,
    // one count per populated index
    cnt: CountSlots,
    total_count: u64,
    max_value: u64,
    min_non_zero_value: u64,
}

impl View for PackedHistogram {
    type V = HistogramState;

    closed spec fn view(&self) -> HistogramState {
        HistogramState {
            bounds: self.geom@,
            counts: self.counts(),
            max_value: self.max_value,
            min_non_zero_value: self.min_non_zero_value,
        }
    }
}

impl PackedHistogram {
    /// The dense counts that the store stands for.
    spec fn counts(&self) -> Seq<u64> {
        sparse::dense(self.idx@, self.cnt@, self.counts_len as nat)
    }

    /// The store holds what it should: a count that is not zero for each of ascending
    /// tracked indices, in as few bytes as the largest needs.
    spec fn store_wf(&self) -> bool {
        &&& self.geom.wf()
        &&& self.counts_len == self.geom@.counts_len()
        &&& sparse::ascending(self.idx@, self.counts_len as nat)
        &&& self.cnt.wf()
        &&& self.cnt@.len() == self.idx@.len()
        &&& forall|p: int| 0 <= p < self.cnt@.len() ==> #[trigger] self.cnt@[p] != 0
        &&& self.cnt.width() == model::least_width(self.counts())
    }

    /// The store is in order, the total is that of the counts, and the extremes agree with
    /// them.
    pub closed spec fn wf(&self) -> bool {
        &&& self.store_wf()
        &&& self.total_count == self@.total()
        &&& self@.wf()
    }

    /// What is known of the state of a well-formed histogram.
    pub proof fn lemma_wf(&self)
        requires
            self.wf(),
        ensures
            self@.wf(),
    {
    }

    proof fn lemma_store(&self)
        requires
            self.store_wf(),
        ensures
            self.geom@.valid(),
            self.counts().len() == self.counts_len,
            2 <= self.counts_len <= 0x82_0000,
            self.idx@.len() <= self.counts_len,
            self.idx@.len() == model::nonzero_to(self.counts(), self.counts_len as int),
            model::any_nonzero(self.counts()) <==> self.idx@.len() > 0,
            model::sum_to(self.counts(), self.counts_len as int) == model::sum_to(
                self.cnt@,
                self.cnt@.len() as int,
            ),
            model::sum_to(self.counts(), self.counts_len as int) > 0 <==> self.idx@.len() > 0,
    {
        self.geom.lemma_wf();
        self.geom@.lemma_sizes();
        sparse::lemma_dense_total(self.idx@, self.cnt@, self.counts_len as nat);
        model::lemma_sum_zero(self.cnt@, self.cnt@.len() as int);
        if self.idx@.len() > 0 {
            assert(self.cnt@[0] != 0);
        }
    }

    /// Create a sparse histogram for values from `low` to `high` with `sigfig` significant
    /// decimal digits.
    pub fn new_with_bounds(low: u64, high: u64, sigfig: u8) -> (r: Result<Self, CreationError>)
        ensures
            match (Bounds { low, high, sigfig }).error() {
                Some(e) => r == Err::<Self, CreationError>(e),
                None => r matches Ok(h) && h.wf() && h@ == HistogramState::empty(
                    Bounds { low, high, sigfig },
                ),
            },
    {
        let geom = match Geometry::new_with_bounds(low, high, sigfig) {
            Ok(geom) => geom,
            Err(e) => return Err(e),
        };
        let counts_len: usize = geom.distinct_values();
        let h = PackedHistogram {
            geom,
            counts_len,
            idx: Vec::new(),
            cnt: CountSlots::new(),
            total_count: 0,
            max_value: INITIAL_MAX,
            min_non_zero_value: INITIAL_MIN,
        };
        proof {
            let b = Bounds { low, high, sigfig };
            assert(h.counts() =~= HistogramState::empty(b).counts);
            slots::lemma_max_of_width();
            h.lemma_store();
            b.lemma_tracked(0);
            assert(!model::any_nonzero(h.counts()));
        }
        Ok(h)
    }

    /// The first position whose index is `key` or more.
    fn lower_bound(&self, key: u32) -> (r: usize)
        requires
            sparse::ascending(self.idx@, self.counts_len as nat),
        ensures
            sparse::parts_at(self.idx@, key as int, r as int),
    {
        let mut base: usize = 0;
        let mut n: usize = self.idx.len();
        while n > 0
            invariant
                sparse::ascending(self.idx@, self.counts_len as nat),
                base + n <= self.idx.len(),
                forall|q: int| 0 <= q < base ==> #[trigger] self.idx@[q] < key,
                forall|q: int| base + n <= q < self.idx@.len() ==> #[trigger] self.idx@[q] >= key,
            decreases n,
        {
            let half: usize = n / 2;
            let mid: usize = base + half;
            if self.idx[mid] < key {
                proof {
                    assert forall|q: int| 0 <= q < mid + 1 implies #[trigger] self.idx@[q] < key by {
                        if q < mid {
                            assert(self.idx@[q] < self.idx@[mid as int]);
                        }
                    }
                }
                base = mid + 1;
                n = n - (half + 1);
            } else {
                proof {
                    assert forall|q: int| mid <= q < self.idx@.len() implies #[trigger] self.idx@[q]
                        >= key by {
                        if q > mid {
                            assert(self.idx@[mid as int] < self.idx@[q]);
                        }
                    }
                }
                n = half;
            }
        }
        base
    }

    /// Add `delta` to the count at index `ci`, writing the index down where it is new.
    fn sparse_add(&mut self, ci: u32, delta: u64)
        requires
            old(self).store_wf(),
            ci < old(self).counts_len,
            delta > 0,
        ensures
            final(self).store_wf(),
            final(self)@ == (HistogramState {
                counts: old(self).counts().update(
                    ci as int,
                    model::saturate(old(self).counts()[ci as int] as nat + delta as nat),
                ),
                ..old(self)@
            }),
            final(self).total_count == old(self).total_count,
            final(self).counts_len == old(self).counts_len,
            final(self).geom == old(self).geom,
    {
        let pos: usize = self.lower_bound(ci);
        let ghost idx = self.idx@;
        let ghost vals = self.cnt@;
        let ghost n = self.counts_len as nat;
        proof {
            self.lemma_store();
            sparse::lemma_parted(idx, vals, n, ci as int, pos as int);
            assert(self.counts()[ci as int] == sparse::sparse_count(idx, vals, ci as int));
        }
        if pos < self.idx.len() && self.idx[pos] == ci {
            let nv: u64 = self.cnt.get(pos).saturating_add(delta);
            self.cnt.widen_to_fit(nv);
            self.cnt.set(pos, nv);
            proof {
                sparse::lemma_dense_update(idx, vals, n, pos as int, nv);
                model::lemma_least_width_update(old(self).counts(), ci as int, nv);
            }
            return;
        }
        self.cnt.widen_to_fit(delta);
        self.idx.insert(pos, ci);
        proof {
            self.cnt.lemma_view();
            let m: int = self.cnt@.len() as int + 1;
            let w: int = self.cnt.width() as int;
            assert(m * w <= 0x7FFF_FFFF) by (nonlinear_arith)
                requires
                    0 < m <= 0x82_0001,
                    0 < w <= 8,
            ;
        }
        self.cnt.insert(pos, delta);
        proof {
            sparse::lemma_dense_insert(idx, vals, n, pos as int, ci, delta);
            model::lemma_least_width_update(old(self).counts(), ci as int, delta);
            assert forall|p: int| 0 <= p < self.cnt@.len() implies #[trigger] self.cnt@[p] != 0 by {
                if p < pos {
                    assert(self.cnt@[p] == vals[p]);
                } else if p > pos {
                    assert(self.cnt@[p] == vals[p - 1]);
                }
            }
        }
    }

    /// Record a single occurrence of `value`.
    pub fn record(&mut self, value: u64) -> (r: Result<(), RecordError>)
        requires
            old(self).wf(),
        ensures
            final(self).wf(),
            match r {
                Ok(_) => old(self)@.tracks(value) && final(self)@ == old(self)@.recorded(value, 1),
                Err(e) => !old(self)@.tracks(value) && final(self)@ == old(self)@ && e
                    == RecordError::ValueOutOfRangeResizeDisabled,
            },
    {
        self.record_n(value, 1)
    }

    /// Record `count` occurrences of `value`, unless it lies beyond the tracked range.
    pub fn record_n(&mut self, value: u64, count: u64) -> (r: Result<(), RecordError>)
        requires
            old(self).wf(),
        ensures
            final(self).wf(),
            match r {
                Ok(_) => old(self)@.tracks(value) && final(self)@ == old(self)@.recorded(
                    value,
                    count,
                ),
                Err(e) => !old(self)@.tracks(value) && final(self)@ == old(self)@ && e
                    == RecordError::ValueOutOfRangeResizeDisabled,
            },
    {
        let index: usize = self.geom.index_for(value);
        if index >= self.counts_len {
            return Err(RecordError::ValueOutOfRangeResizeDisabled);
        }
        if count != 0 {
            proof {
                self.lemma_store();
                model::lemma_total_update(self.counts(), index as int, count);
                old(self)@.lemma_recorded_wf(value, count);
            }
            self.sparse_add(index as u32, count);
            self.total_count = self.total_count.saturating_add(count);
            if value > self.max_value {
                self.max_value = value;
            }
            if value != 0 && value < self.min_non_zero_value {
                self.min_non_zero_value = value;
            }
            assert(self@ =~= old(self)@.recorded(value, count));
        }
        Ok(())
    }

    /// Total recorded count.
    pub fn len(&self) -> (r: u64)
        requires
            self.wf(),
        ensures
            r == self@.total(),
    {
        self.total_count
    }

    /// Whether nothing has been recorded.
    pub fn is_empty(&self) -> (r: bool)
        requires
            self.wf(),
        ensures
            r <==> !model::any_nonzero(self@.counts),
            r <==> self@.total() == 0,
    {
        proof {
            self.lemma_store();
        }
        self.total_count == 0
    }

    /// Lowest recorded value (0 if bucket 0 is populated or the histogram is empty).
    pub fn min(&self) -> (r: u64)
        requires
            self.wf(),
        ensures
            r == self@.min(),
    {
        if self.total_count == 0 {
            return 0;
        }
        proof {
            self.lemma_store();
            let p = sparse::lemma_parting_exists(self.idx@, self.counts_len as nat, 0);
            assert(p == 0) by {
                if p > 0 {
                    assert(self.idx@[0] < 0);
                }
            }
            sparse::lemma_parted(self.idx@, self.cnt@, self.counts_len as nat, 0, 0);
            assert(self.counts()[0] == sparse::sparse_count(self.idx@, self.cnt@, 0));
        }
        if self.idx.len() > 0 && self.idx[0] == 0 && self.cnt.get(0) != 0 {
            return 0;
        }
        self.geom.lowest_equivalent(self.min_non_zero_value)
    }

    /// Highest recorded value.
    pub fn max(&self) -> (r: u64)
        requires
            self.wf(),
        ensures
            r == self@.max(),
    {
        if self.max_value == INITIAL_MAX {
            INITIAL_MAX
        } else {
            self.geom.highest_equivalent(self.max_value)
        }
    }

    /// Count recorded at `value`'s bucket (0 if out of range or unpopulated).
    pub fn count_at(&self, value: u64) -> (r: u64)
        requires
            self.wf(),
        ensures
            r == self@.count_at(value),
    {
        let ci: usize = self.geom.index_for(value);
        if ci >= self.counts_len {
            return 0;
        }
        proof {
            self.lemma_store();
        }
        let pos: usize = self.lower_bound(ci as u32);
        proof {
            sparse::lemma_parted(self.idx@, self.cnt@, self.counts_len as nat, ci as int, pos as int);
            assert(self.counts()[ci as int] == sparse::sparse_count(self.idx@, self.cnt@, ci as int));
        }
        if pos < self.idx.len() && self.idx[pos] == ci as u32 {
            self.cnt.get(pos)
        } else {
            0
        }
    }

    /// Number of populated buckets.
    pub fn populated(&self) -> (r: usize)
        requires
            self.wf(),
        ensures
            r == self@.populated(),
    {
        proof {
            self.lemma_store();
        }
        self.idx.len()
    }

    /// Current per-count byte width (1/2/4/8): the least in which every count fits.
    pub fn count_width(&self) -> (r: u8)
        requires
            self.wf(),
        ensures
            r == model::least_width(self@.counts),
    {
        self.cnt.count_width()
    }

    /// The value at which the counts, summed from the lowest one up, reach `count`: the
    /// lowest or the highest of the equivalent values there, and 0 where they do not reach
    /// it. A `count` of 0 asks for the first value, as 1 does.
    pub fn value_at_count(&self, count: u64, lowest: bool) -> (r: u64)
        requires
            self.wf(),
        ensures
            r == self@.value_at_count(count, lowest),
    {
        let target: u64 = if count == 0 {
            1
        } else {
            count
        };
        proof {
            self.lemma_store();
        }
        match self.scan_position(target) {
            Some(pos) => {
                let i: u32 = self.idx[pos];
                proof {
                    let n = self.counts_len as nat;
                    let idx = self.idx@;
                    let p = pos as int;
                    assert forall|q: int| 0 <= q < p implies #[trigger] idx[q] < idx[p] by {}
                    assert(sparse::parts_at(idx, i as int, p));
                    assert(sparse::parts_at(idx, i + 1, p + 1)) by {
                        assert forall|q: int| p + 1 <= q < idx.len() implies #[trigger] idx[q] >= i
                            + 1 by {
                            assert(idx[p] < idx[q]);
                        }
                    }
                    sparse::lemma_dense_sum(idx, self.cnt@, n, i as int, p);
                    sparse::lemma_dense_sum(idx, self.cnt@, n, i + 1, p + 1);
                    let k = choose|k: int| model::reaches_at(self.counts(), target, k);
                    assert(model::reaches_at(self.counts(), target, i as int));
                    model::lemma_reaches_once(self.counts(), target, i as int, k);
                    model::lemma_sum_monotone(self.counts(), i + 1, n as int);
                    self.geom@.lemma_index_of_value_of(i as nat);
                }
                let v: u64 = self.geom.value_for(i as usize);
                if lowest {
                    self.geom.lowest_equivalent(v)
                } else {
                    self.geom.highest_equivalent(v)
                }
            },
            None => 0,
        }
    }

    /// The position at which the running sum of the counts first reaches `target`. Counts
    /// of at most four bytes cannot sum beyond a `u64`; wider ones are added with care.
    fn scan_position(&self, target: u64) -> (r: Option<usize>)
        requires
            self.store_wf(),
        ensures
            first_to_reach(self.cnt@, target, r),
    {
        if self.cnt.count_width() < 8 {
            self.scan_blocks(target)
        } else {
            self.scan_saturating(target)
        }
    }

    /// `scan_position` where sums cannot overflow: a block of counts at a time, and one by
    /// one only in the block that reaches the target.
    fn scan_blocks(&self, target: u64) -> (r: Option<usize>)
        requires
            self.store_wf(),
            self.cnt.width() < 8,
        ensures
            first_to_reach(self.cnt@, target, r),
    {
        let n: usize = self.idx.len();
        let ghost vals = self.cnt@;
        proof {
            self.lemma_store();
            self.cnt.lemma_view();
            slots::lemma_max_of_width();
            assert forall|q: int| 0 <= q < n implies #[trigger] vals[q] <= 0xFFFF_FFFF by {
                assert(self.cnt@[q] <= slots::max_of_width(self.cnt.width()));
            }
        }
        let mut running: u64 = 0;
        let mut i: usize = 0;
        while i + CHUNK <= n
            invariant
                self.cnt.wf(),
                vals == self.cnt@,
                i <= n <= 0x82_0000,
                vals.len() == n,
                forall|q: int| 0 <= q < n ==> #[trigger] vals[q] <= 0xFFFF_FFFF,
                running == model::sum_to(vals, i as int),
                i > 0 ==> running < target,
            decreases n - i,
        {
            let mut s: u64 = 0;
            let mut k: usize = 0;
            while k < CHUNK
                invariant
                    self.cnt.wf(),
                    vals == self.cnt@,
                    k <= CHUNK,
                    i + CHUNK <= n <= 0x82_0000,
                    vals.len() == n,
                    forall|q: int| 0 <= q < n ==> #[trigger] vals[q] <= 0xFFFF_FFFF,
                    s <= k * 0xFFFF_FFFF,
                    model::sum_to(vals, i + k) == model::sum_to(vals, i as int) + s,
                decreases CHUNK - k,
            {
                s = s + self.cnt.get(i + k);
                k = k + 1;
            }
            proof {
                lemma_sum_bound(vals, i as int);
            }
            if running + s >= target {
                let mut j: usize = 0;
                while j < CHUNK
                    invariant
                        self.cnt.wf(),
                        vals == self.cnt@,
                        j <= CHUNK,
                        i + CHUNK <= n <= 0x82_0000,
                        vals.len() == n,
                        forall|q: int| 0 <= q < n ==> #[trigger] vals[q] <= 0xFFFF_FFFF,
                        running == model::sum_to(vals, i + j),
                        i + j > 0 ==> running < target,
                    decreases CHUNK - j,
                {
                    proof {
                        lemma_sum_bound(vals, i + j);
                    }
                    running = running + self.cnt.get(i + j);
                    if running >= target {
                        return Some(i + j);
                    }
                    j = j + 1;
                }
                // one of the block's counts has reached the target
                assert(false);
            } else {
                running = running + s;
            }
            i = i + CHUNK;
        }
        while i < n
            invariant
                self.cnt.wf(),
                vals == self.cnt@,
                i <= n <= 0x82_0000,
                vals.len() == n,
                forall|q: int| 0 <= q < n ==> #[trigger] vals[q] <= 0xFFFF_FFFF,
                running == model::sum_to(vals, i as int),
                i > 0 ==> running < target,
            decreases n - i,
        {
            proof {
                lemma_sum_bound(vals, i as int);
            }
            running = running + self.cnt.get(i);
            if running >= target {
                return Some(i);
            }
            i = i + 1;
        }
        None
    }

    /// `scan_position` where the sum may pass `u64::MAX`: it is held there, which is as far
    /// as a target goes.
    fn scan_saturating(&self, target: u64) -> (r: Option<usize>)
        requires
            self.store_wf(),
        ensures
            first_to_reach(self.cnt@, target, r),
    {
        let n: usize = self.idx.len();
        let mut running: u64 = 0;
        let mut i: usize = 0;
        while i < n
            invariant
                self.cnt.wf(),
                i <= n,
                self.cnt@.len() == n,
                running == model::saturate(model::sum_to(self.cnt@, i as int)),
                i > 0 ==> running < target,
            decreases n - i,
        {
            running = running.saturating_add(self.cnt.get(i));
            if running >= target {
                return Some(i);
            }
            i = i + 1;
        }
        None
    }

    /// `r` is the bytes of a room that the allocator may have given to the indices, four for
    /// each, and of one that it may have given to the counts.
    pub closed spec fn held(&self, r: usize) -> bool {
        exists|a: usize, b: usize|
            #![trigger call_ensures(memory::capacity::<u32>, (&self.idx,), a), self.cnt.room(b)]
            call_ensures(memory::capacity::<u32>, (&self.idx,), a) && self.cnt.room(b) && r == 4 * a
                + b
    }

    /// What the backing holds is exactly four times some room of the indices and some room of
    /// the counts.
    proof fn lemma_held(&self, r: usize)
        ensures
            self.held(r) <==> exists|a: usize, b: usize|
                #![trigger call_ensures(memory::capacity::<u32>, (&self.idx,), a), self.cnt.room(b)]
                call_ensures(memory::capacity::<u32>, (&self.idx,), a) && self.cnt.room(b) && r == 4
                    * a + b,
    {
    }

    /// Bytes held by the sparse backing: none where nothing was recorded, whatever the bounds
    /// are, and what the allocator gave to the indices and to the counts otherwise. How much
    /// that is is not known beforehand, but it is enough for every populated index and its
    /// count.
    pub fn memory_size(&self) -> (r: usize)
        requires
            self.wf(),
        ensures
            self@.populated() == 0 ==> r == 0,
            self@.populated() > 0 ==> self.held(r),
            r >= self@.populated() * (4 + model::least_width(self@.counts)),
    {
        proof {
            self.lemma_store();
        }
        if self.idx.len() == 0 {
            // a vector into which nothing was put has no room
            return 0;
        }
        let idx_capacity: usize = memory::capacity(&self.idx);
        let cnt_capacity: usize = self.cnt.memory_size();
        proof {
            broadcast use vstd::layout::layout_of_primitives;
            let n: int = self.idx@.len() as int;
            let w: int = self.cnt.width() as int;
            assert(n * (4 + w) == n * 4 + n * w) by (nonlinear_arith);
        }
        let r: usize = memory::backing_size(idx_capacity, cnt_capacity);
        proof {
            self.lemma_held(r);
        }
        r
    }
}

/// `r` is the first position up to which, with it, the counts sum to `target`.
spec fn first_to_reach(vals: Seq<u64>, target: u64, r: Option<usize>) -> bool {
    match r {
        Some(p) => {
            &&& p < vals.len()
            &&& model::sum_to(vals, p + 1) >= target
            &&& p > 0 ==> model::sum_to(vals, p as int) < target
        },
        None => vals.len() == 0 || model::sum_to(vals, vals.len() as int) < target,
    }
}

/// Counts of at most four bytes sum to at most that many times the largest of them.
proof fn lemma_sum_bound(vals: Seq<u64>, n: int)
    requires
        0 <= n <= vals.len(),
        forall|q: int| 0 <= q < vals.len() ==> #[trigger] vals[q] <= 0xFFFF_FFFF,
    ensures
        model::sum_to(vals, n) <= n * 0xFFFF_FFFF,
    decreases n,
{
    if n > 0 {
        lemma_sum_bound(vals, n - 1);
    }
}

} // verus!
