//! Counts that are written down only where they are not zero, and the dense counts that
//! they stand for.
#[allow(unused_imports)]
use crate::model;
use vstd::prelude::*;

verus! {

/// The indices are strictly ascending and below `n`.
pub open spec fn ascending(idx: Seq<u32>, n: nat) -> bool {
    &&& forall|p: int, q: int| 0 <= p < q < idx.len() ==> #[trigger] idx[p] < #[trigger] idx[q]
    &&& forall|p: int| 0 <= p < idx.len() ==> #[trigger] idx[p] < n
}

/// `idx` holds `i` at position `p`.
pub open spec fn stands_at(idx: Seq<u32>, i: int, p: int) -> bool {
    0 <= p < idx.len() && idx[p] == i
}

/// Position `p` parts the indices: those before it are below `i`, the others are not.
pub open spec fn parts_at(idx: Seq<u32>, i: int, p: int) -> bool {
    &&& 0 <= p <= idx.len()
    &&& forall|q: int| 0 <= q < p ==> #[trigger] idx[q] < i
    &&& forall|q: int| p <= q < idx.len() ==> #[trigger] idx[q] >= i
}

/// The count at index `i`: what `vals` holds where `idx` holds `i`, and zero where it does
/// not.
pub open spec fn sparse_count(idx: Seq<u32>, vals: Seq<u64>, i: int) -> u64 {
    if exists|p: int| stands_at(idx, i, p) {
        vals[choose|p: int| stands_at(idx, i, p)]
    } else {
        0
    }
}

/// The dense counts of the indices below `n`.
pub open spec fn dense(idx: Seq<u32>, vals: Seq<u64>, n: nat) -> Seq<u64> {
    Seq::new(n, |i: int| sparse_count(idx, vals, i))
}

/// The counts of the indices that are written down.
pub proof fn lemma_present(idx: Seq<u32>, vals: Seq<u64>, n: nat, p: int)
    requires
        ascending(idx, n),
        0 <= p < idx.len(),
    ensures
        sparse_count(idx, vals, idx[p] as int) == vals[p],
        dense(idx, vals, n)[idx[p] as int] == vals[p],
{
    assert(stands_at(idx, idx[p] as int, p));
    let q = choose|q: int| stands_at(idx, idx[p] as int, q);
    if q < p {
        assert(idx[q] < idx[p]);
    } else if p < q {
        assert(idx[p] < idx[q]);
    }
}

/// The count at an index is found at the position that parts the indices there, or is zero.
pub proof fn lemma_parted(idx: Seq<u32>, vals: Seq<u64>, n: nat, i: int, p: int)
    requires
        ascending(idx, n),
        parts_at(idx, i, p),
    ensures
        sparse_count(idx, vals, i) == if p < idx.len() && idx[p] == i {
            vals[p]
        } else {
            0
        },
{
    if p < idx.len() && idx[p] == i {
        lemma_present(idx, vals, n, p);
    } else if exists|q: int| stands_at(idx, i, q) {
        let q = choose|q: int| stands_at(idx, i, q);
        if q < p {
            assert(idx[q] < i);
        } else if q > p {
            assert(idx[p] < idx[q]);
            assert(idx[p] >= i);
        }
    }
}

/// Every index has a position that parts the indices there.
pub proof fn lemma_parting_exists(idx: Seq<u32>, n: nat, i: int) -> (p: int)
    requires
        ascending(idx, n),
    ensures
        parts_at(idx, i, p),
    decreases idx.len(),
{
    if idx.len() == 0 {
        0
    } else {
        let last: int = idx.len() - 1;
        if idx[last] < i {
            assert forall|q: int| 0 <= q < idx.len() implies #[trigger] idx[q] < i by {
                if q < last {
                    assert(idx[q] < idx[last]);
                }
            }
            idx.len() as int
        } else {
            let front = idx.drop_last();
            assert forall|p: int, q: int| 0 <= p < q < front.len() implies #[trigger] front[p]
                < #[trigger] front[q] by {
                assert(idx[p] < idx[q]);
            }
            assert(ascending(front, n));
            let p = lemma_parting_exists(front, n, i);
            assert forall|q: int| 0 <= q < p implies #[trigger] idx[q] < i by {
                assert(front[q] == idx[q]);
            }
            assert forall|q: int| p <= q < idx.len() implies #[trigger] idx[q] >= i by {
                if q < last {
                    assert(front[q] == idx[q]);
                }
            }
            p
        }
    }
}

/// Changing a count that is written down changes that dense count.
pub proof fn lemma_dense_update(idx: Seq<u32>, vals: Seq<u64>, n: nat, p: int, c: u64)
    requires
        ascending(idx, n),
        vals.len() == idx.len(),
        0 <= p < idx.len(),
    ensures
        dense(idx, vals.update(p, c), n) == dense(idx, vals, n).update(idx[p] as int, c),
{
    let after = vals.update(p, c);
    assert forall|i: int| 0 <= i < n implies sparse_count(idx, after, i) == #[trigger] dense(
        idx,
        vals,
        n,
    ).update(idx[p] as int, c)[i] by {
        if exists|q: int| stands_at(idx, i, q) {
            let q = choose|q: int| stands_at(idx, i, q);
            lemma_present(idx, vals, n, q);
            lemma_present(idx, after, n, q);
            if q < p {
                assert(idx[q] < idx[p]);
            } else if p < q {
                assert(idx[p] < idx[q]);
            }
        } else {
            assert(!stands_at(idx, i, p));
        }
    }
    assert(dense(idx, after, n) =~= dense(idx, vals, n).update(idx[p] as int, c));
}

/// Writing down a count of a new index changes that dense count.
pub proof fn lemma_dense_insert(idx: Seq<u32>, vals: Seq<u64>, n: nat, p: int, ci: u32, c: u64)
    requires
        ascending(idx, n),
        vals.len() == idx.len(),
        ci < n,
        parts_at(idx, ci as int, p),
        p < idx.len() ==> idx[p] != ci,
    ensures
        ascending(idx.insert(p, ci), n),
        dense(idx, vals, n)[ci as int] == 0,
        dense(idx.insert(p, ci), vals.insert(p, c), n) == dense(idx, vals, n).update(ci as int, c),
{
    let idx2 = idx.insert(p, ci);
    let vals2 = vals.insert(p, c);
    assert forall|q: int| p <= q < idx.len() implies #[trigger] idx[q] > ci by {
        if q > p {
            assert(idx[p] < idx[q]);
        }
    }
    assert forall|a: int, b: int| 0 <= a < b < idx2.len() implies #[trigger] idx2[a]
        < #[trigger] idx2[b] by {
        let a0: int = if a < p {
            a
        } else {
            a - 1
        };
        let b0: int = if b < p {
            b
        } else {
            b - 1
        };
        if a == p {
            assert(idx2[b] == idx[b0]);
        } else if b == p {
            assert(idx2[a] == idx[a0]);
        } else {
            assert(idx2[a] == idx[a0] && idx2[b] == idx[b0]);
        }
    }
    assert forall|q: int| 0 <= q < idx2.len() implies #[trigger] idx2[q] < n by {
        if q < p {
            assert(idx2[q] == idx[q]);
        } else if q > p {
            assert(idx2[q] == idx[q - 1]);
        }
    }
    lemma_parted(idx, vals, n, ci as int, p);
    assert forall|i: int| 0 <= i < n implies sparse_count(idx2, vals2, i) == #[trigger] dense(
        idx,
        vals,
        n,
    ).update(ci as int, c)[i] by {
        if i == ci {
            assert(idx2[p] == ci);
            lemma_present(idx2, vals2, n, p);
        } else if exists|q: int| stands_at(idx, i, q) {
            let q = choose|q: int| stands_at(idx, i, q);
            let q2: int = if q < p {
                q
            } else {
                q + 1
            };
            assert(idx2[q2] == idx[q] && vals2[q2] == vals[q]);
            lemma_present(idx, vals, n, q);
            lemma_present(idx2, vals2, n, q2);
        } else if exists|q2: int| stands_at(idx2, i, q2) {
            let q2 = choose|q2: int| stands_at(idx2, i, q2);
            let q: int = if q2 < p {
                q2
            } else {
                q2 - 1
            };
            assert(stands_at(idx, i, q));
        }
    }
    assert(dense(idx2, vals2, n) =~= dense(idx, vals, n).update(ci as int, c));
}

/// The dense counts below an index sum to the written ones before its position, and as
/// many of them are not zero.
pub proof fn lemma_dense_sum(idx: Seq<u32>, vals: Seq<u64>, n: nat, i: int, p: int)
    requires
        ascending(idx, n),
        vals.len() == idx.len(),
        forall|q: int| 0 <= q < vals.len() ==> #[trigger] vals[q] != 0,
        0 <= i <= n,
        parts_at(idx, i, p),
    ensures
        model::sum_to(dense(idx, vals, n), i) == model::sum_to(vals, p),
        model::nonzero_to(dense(idx, vals, n), i) == p,
    decreases i,
{
    if i == 0 {
        if p > 0 {
            assert(idx[0] < i);
        }
    } else {
        let q: int = if p > 0 && idx[p - 1] == i - 1 {
            p - 1
        } else {
            p
        };
        assert(parts_at(idx, i - 1, q)) by {
            assert forall|r: int| 0 <= r < q implies #[trigger] idx[r] < i - 1 by {
                assert(idx[r] < i);
                if p > 0 && r < p - 1 {
                    assert(idx[r] < idx[p - 1]);
                }
            }
        }
        lemma_dense_sum(idx, vals, n, i - 1, q);
        lemma_parted(idx, vals, n, i - 1, q);
        assert(dense(idx, vals, n)[i - 1] == sparse_count(idx, vals, i - 1));
        if q == p && p < idx.len() {
            assert(idx[p] >= i);
        }
    }
}

/// All dense counts together: their sum, how many are not zero, and which are not.
pub proof fn lemma_dense_total(idx: Seq<u32>, vals: Seq<u64>, n: nat)
    requires
        ascending(idx, n),
        vals.len() == idx.len(),
        forall|q: int| 0 <= q < vals.len() ==> #[trigger] vals[q] != 0,
    ensures
        model::sum_to(dense(idx, vals, n), n as int) == model::sum_to(vals, vals.len() as int),
        model::nonzero_to(dense(idx, vals, n), n as int) == idx.len(),
        model::any_nonzero(dense(idx, vals, n)) <==> idx.len() > 0,
        idx.len() <= n,
{
    lemma_dense_sum(idx, vals, n, n as int, idx.len() as int);
    lemma_nonzero_bound(dense(idx, vals, n), n as int);
    if idx.len() > 0 {
        lemma_present(idx, vals, n, 0);
        assert(dense(idx, vals, n)[idx[0] as int] != 0);
    }
    if model::any_nonzero(dense(idx, vals, n)) && idx.len() == 0 {
        let i = choose|i: int| 0 <= i < n && dense(idx, vals, n)[i] != 0;
        assert(dense(idx, vals, n)[i] == sparse_count(idx, vals, i));
    }
}

proof fn lemma_nonzero_bound(counts: Seq<u64>, n: int)
    requires
        0 <= n,
    ensures
        model::nonzero_to(counts, n) <= n,
    decreases n,
{
    if n > 0 {
        lemma_nonzero_bound(counts, n - 1);
    }
}

} // verus!
