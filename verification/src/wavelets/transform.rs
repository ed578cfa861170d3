//! The order in which wavelet coefficient columns are laid out as a scale
//! series: by increasing scale (ties kept in their given order), then back.

use vstd::prelude::*;

verus! {

/// Column `i` comes before column `j`: a smaller scale, or the same scale and
/// an earlier position.
pub open spec fn scale_before(scales: Seq<usize>, i: int, j: int) -> bool {
    scales[i] < scales[j] || (scales[i] == scales[j] && i < j)
}

/// `order` lists every column index `0 .. scales.len()` once, by increasing
/// scale, ties in their given order (a stable sort by scale).
pub open spec fn is_scale_order(scales: Seq<usize>, order: Seq<usize>) -> bool {
    &&& order.len() == scales.len()
    &&& forall|p: int| 0 <= p < order.len() ==> #[trigger] order[p] < scales.len()
    &&& forall|k: usize| k < scales.len() ==> #[trigger] order.contains(k)
    &&& forall|p: int, q: int| 0 <= p < q < order.len() ==> scale_before(scales, order[p] as int, order[q] as int)
}

spec fn count_at_most(scales: Seq<usize>, order: Seq<usize>, si: usize, p: int) -> nat
    decreases p,
{
    if p <= 0 {
        0
    } else {
        count_at_most(scales, order, si, p - 1) + if scales[order[p - 1] as int] <= si {
            1nat
        } else {
            0nat
        }
    }
}

spec fn count_above(scales: Seq<usize>, order: Seq<usize>, si: usize, p: int) -> nat
    decreases p,
{
    if p <= 0 {
        0
    } else {
        count_above(scales, order, si, p - 1) + if scales[order[p - 1] as int] > si {
            1nat
        } else {
            0nat
        }
    }
}

proof fn lemma_counts_split(scales: Seq<usize>, order: Seq<usize>, si: usize, p: int)
    requires
        p >= 0,
    ensures
        count_at_most(scales, order, si, p) + count_above(scales, order, si, p) == p,
    decreases p,
{
    if p > 0 {
        lemma_counts_split(scales, order, si, p - 1);
    }
}

/// The column indices sorted by scale, stably.
pub fn scale_order(scales: &[usize]) -> (r: Vec<usize>)
    ensures
        is_scale_order(scales@, r@),
{
    let n = scales.len();
    let mut order: Vec<usize> = Vec::new();
    let mut i: usize = 0;
    while i < n
        invariant
            n == scales@.len(),
            i <= n,
            order@.len() == i,
            forall|p: int| 0 <= p < order@.len() ==> #[trigger] order@[p] < i,
            forall|k: usize| k < i ==> #[trigger] order@.contains(k),
            forall|p: int, q: int| 0 <= p < q < order@.len() ==> scale_before(scales@, order@[p] as int, order@[q] as int),
        decreases n - i,
    {
        let si = scales[i];
        let mut next: Vec<usize> = Vec::new();
        // The columns that come before column i, in their order.
        let mut p: usize = 0;
        while p < order.len()
            invariant
                n == scales@.len(),
                i < n,
                si == scales@[i as int],
                forall|a: int| 0 <= a < order@.len() ==> #[trigger] order@[a] < i,
                forall|a: int, b: int| 0 <= a < b < order@.len() ==> scale_before(scales@, order@[a] as int, order@[b] as int),
                p <= order@.len(),
                forall|a: int| 0 <= a < next@.len() ==> #[trigger] next@[a] < i && scales@[next@[a] as int] <= si,
                forall|a: int, b: int| 0 <= a < b < next@.len() ==> scale_before(scales@, next@[a] as int, next@[b] as int),
                forall|a: int, q: int| 0 <= a < next@.len() && p <= q < order@.len() ==> scale_before(scales@, next@[a] as int, order@[q] as int),
                forall|k: int| 0 <= k < p && scales@[order@[k] as int] <= si ==> next@.contains(order@[k]),
                next@.len() == count_at_most(scales@, order@, si, p as int),
            decreases order@.len() - p,
        {
            let c = order[p];
            if scales[c] <= si {
                let ghost old_next = next@;
                next.push(c);
                proof {
                    assert forall|k: int| 0 <= k < p + 1 && scales@[order@[k] as int] <= si implies next@.contains(order@[k]) by {
                        if k == p {
                            assert(next@[next@.len() - 1] == order@[k]);
                        } else {
                            assert(old_next.contains(order@[k]));
                            let m = choose|m: int| 0 <= m < old_next.len() && old_next[m] == order@[k];
                            assert(next@[m] == order@[k]);
                        }
                    }
                }
            }
            p = p + 1;
        }
        let lower = next.len();
        let ghost before = next@;
        next.push(i);
        proof {
            assert forall|k: int| 0 <= k < order@.len() && scales@[order@[k] as int] <= si implies next@.contains(order@[k]) by {
                assert(before.contains(order@[k]));
                let m = choose|m: int| 0 <= m < before.len() && before[m] == order@[k];
                assert(next@[m] == order@[k]);
            }
        }
        // The columns that come after column i, in their order.
        let mut q: usize = 0;
        while q < order.len()
            invariant
                n == scales@.len(),
                i < n,
                si == scales@[i as int],
                forall|a: int| 0 <= a < order@.len() ==> #[trigger] order@[a] < i,
                forall|a: int, b: int| 0 <= a < b < order@.len() ==> scale_before(scales@, order@[a] as int, order@[b] as int),
                q <= order@.len(),
                lower < next@.len(),
                next@[lower as int] == i,
                forall|a: int| 0 <= a < next@.len() ==> #[trigger] next@[a] <= i,
                forall|a: int| 0 <= a < lower ==> #[trigger] scales@[next@[a] as int] <= si,
                forall|a: int| lower < a < next@.len() ==> #[trigger] scales@[next@[a] as int] > si,
                forall|a: int, b: int| 0 <= a < b < next@.len() ==> scale_before(scales@, next@[a] as int, next@[b] as int),
                forall|a: int, r: int| lower < a < next@.len() && q <= r < order@.len() ==> scale_before(scales@, next@[a] as int, order@[r] as int),
                forall|k: int| 0 <= k < order@.len() && scales@[order@[k] as int] <= si ==> next@.contains(order@[k]),
                forall|k: int| 0 <= k < q && scales@[order@[k] as int] > si ==> next@.contains(order@[k]),
                lower == count_at_most(scales@, order@, si, order@.len() as int),
                next@.len() == lower + 1 + count_above(scales@, order@, si, q as int),
            decreases order@.len() - q,
        {
            let c = order[q];
            if scales[c] > si {
                let ghost old_next = next@;
                next.push(c);
                proof {
                    assert forall|k: int| 0 <= k < order@.len() && scales@[order@[k] as int] <= si implies next@.contains(order@[k]) by {
                        assert(old_next.contains(order@[k]));
                        let m = choose|m: int| 0 <= m < old_next.len() && old_next[m] == order@[k];
                        assert(next@[m] == order@[k]);
                    }
                    assert forall|k: int| 0 <= k < q + 1 && scales@[order@[k] as int] > si implies next@.contains(order@[k]) by {
                        if k == q {
                            assert(next@[next@.len() - 1] == order@[k]);
                        } else {
                            assert(old_next.contains(order@[k]));
                            let m = choose|m: int| 0 <= m < old_next.len() && old_next[m] == order@[k];
                            assert(next@[m] == order@[k]);
                        }
                    }
                }
            }
            q = q + 1;
        }
        proof {
            // Every earlier column is now listed, and so is column i.
            assert forall|k: usize| k < i + 1 implies #[trigger] next@.contains(k) by {
                if k == i {
                    assert(next@[lower as int] == i);
                } else {
                    assert(order@.contains(k));
                    let m = choose|m: int| 0 <= m < order@.len() && order@[m] == k;
                    assert(next@.contains(order@[m]));
                }
            }
            lemma_counts_split(scales@, order@, si, order@.len() as int);
        }
        order = next;
        i = i + 1;
    }
    order
}

/// The columns of a scale series: every column by increasing scale (ties in
/// their given order), then the same columns from the largest scale back to
/// the smallest.
pub fn scale_series_order(scales: &[usize]) -> (r: Vec<usize>)
    requires
        2 * scales@.len() <= usize::MAX,
    ensures
        r@.len() == 2 * scales@.len(),
        is_scale_order(scales@, r@.take(scales@.len() as int)),
        forall|k: int| 0 <= k < scales@.len() ==> #[trigger] r@[scales@.len() + k] == r@[scales@.len() - 1 - k],
{
    let order = scale_order(scales);
    let n = order.len();
    let mut r: Vec<usize> = Vec::new();
    let mut i: usize = 0;
    while i < n
        invariant
            n == order@.len(),
            i <= n,
            r@ == order@.take(i as int),
        decreases n - i,
    {
        r.push(order[i]);
        i = i + 1;
        assert(r@ =~= order@.take(i as int));
    }
    assert(order@.take(n as int) =~= order@);
    let mut k: usize = 0;
    while k < n
        invariant
            n == order@.len(),
            2 * n <= usize::MAX,
            k <= n,
            r@.len() == n + k,
            r@.take(n as int) == order@,
            forall|j: int| 0 <= j < k ==> #[trigger] r@[n + j] == order@[n - 1 - j],
        decreases n - k,
    {
        r.push(order[n - 1 - k]);
        proof {
            assert(r@.take(n as int) =~= order@);
        }
        k = k + 1;
    }
    proof {
        assert forall|j: int| 0 <= j < n implies #[trigger] r@[n + j] == r@[n - 1 - j] by {
            assert(r@.take(n as int)[n - 1 - j] == r@[n - 1 - j]);
        }
    }
    r
}

} // verus!
