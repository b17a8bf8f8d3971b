//! The stable ascending order of a row of costs, by merging.

use vstd::prelude::*;
use crate::cost::{Cost, lemma_ranks_total, lemma_ranks_transitive, ranks_before};

verus! {

/// Whether `order` lists the indices from `lo` up to `hi`, each once, the
/// cheaper first and, at level cost, the lower index first.
pub open spec fn is_stable_order(costs: Seq<Cost>, lo: int, hi: int, order: Seq<usize>) -> bool {
    &&& order.len() == hi - lo
    &&& forall|k: int| 0 <= k < order.len() ==> lo <= #[trigger] order[k] < hi
    &&& forall|a: int, b: int|
        #![trigger order[a], order[b]]
        0 <= a < b < order.len() ==> ranks_before(costs, order[a] as int, order[b] as int)
    &&& forall|p: usize| lo <= p < hi ==> #[trigger] order.contains(p)
}

/// Two stable orders of the same costs agree on their first `k` entries.
proof fn lemma_stable_orders_agree(
    costs: Seq<Cost>,
    lo: int,
    hi: int,
    a: Seq<usize>,
    b: Seq<usize>,
    k: nat,
)
    requires
        is_stable_order(costs, lo, hi, a),
        is_stable_order(costs, lo, hi, b),
        k <= a.len(),
    ensures
        forall|i: int| 0 <= i < k ==> a[i] == b[i],
    decreases k,
{
    if k > 0 {
        lemma_stable_orders_agree(costs, lo, hi, a, b, (k - 1) as nat);
        let m = k - 1;
        assert(lo <= a[m] < hi);
        assert(lo <= b[m] < hi);
        assert(b.contains(a[m]));
        let j = choose|j: int| 0 <= j < b.len() && b[j] == a[m];
        assert(a.contains(b[m]));
        let i = choose|i: int| 0 <= i < a.len() && a[i] == b[m];
        lemma_ranks_total(costs, a[m] as int, b[m] as int);
        if j < m {
            assert(a[j] == b[j]);
            assert(ranks_before(costs, a[j] as int, a[m] as int));
        } else if j > m {
            assert(ranks_before(costs, b[m] as int, b[j] as int));
            if i < m {
                assert(a[i] == b[i]);
                assert(ranks_before(costs, b[i] as int, b[m] as int));
            } else if i > m {
                assert(ranks_before(costs, a[m] as int, a[i] as int));
            }
        }
    }
}

/// A row of costs has one stable order only.
pub proof fn lemma_stable_order_unique(
    costs: Seq<Cost>,
    lo: int,
    hi: int,
    a: Seq<usize>,
    b: Seq<usize>,
)
    requires
        is_stable_order(costs, lo, hi, a),
        is_stable_order(costs, lo, hi, b),
    ensures
        a == b,
{
    lemma_stable_orders_agree(costs, lo, hi, a, b, a.len());
    assert(a =~= b);
}

/// The stable order of the costs at the indices from `lo` up to `hi`: the one
/// sequence that [`is_stable_order`] holds of.
pub open spec fn stable_order_of(costs: Seq<Cost>, lo: int, hi: int) -> Seq<usize> {
    choose|order: Seq<usize>| is_stable_order(costs, lo, hi, order)
}

/// Merges the orders of two adjacent ranges of indices into the order of
/// their union.
fn merge(
    costs: &[Cost],
    left: &Vec<usize>,
    right: &Vec<usize>,
    Ghost(lo): Ghost<int>,
    Ghost(mid): Ghost<int>,
    Ghost(hi): Ghost<int>,
) -> (out: Vec<usize>)
    requires
        0 <= lo <= mid <= hi <= costs@.len(),
        is_stable_order(costs@, lo, mid, left@),
        is_stable_order(costs@, mid, hi, right@),
    ensures
        is_stable_order(costs@, lo, hi, out@),
{
    let mut out: Vec<usize> = Vec::new();
    let mut i: usize = 0;
    let mut j: usize = 0;
    while i < left.len() || j < right.len()
        invariant
            0 <= lo <= mid <= hi <= costs@.len(),
            is_stable_order(costs@, lo, mid, left@),
            is_stable_order(costs@, mid, hi, right@),
            i <= left.len(),
            j <= right.len(),
            out.len() == i + j,
            forall|k: int| 0 <= k < out.len() ==> lo <= #[trigger] out[k] < hi,
            forall|a: int, b: int|
                #![trigger out[a], out[b]]
                0 <= a < b < out.len() ==> ranks_before(costs@, out[a] as int, out[b] as int),
            forall|k: int, x: int|
                #![trigger out[k], left[x]]
                0 <= k < out.len() && i <= x < left.len() ==> ranks_before(
                    costs@,
                    out[k] as int,
                    left[x] as int,
                ),
            forall|k: int, y: int|
                #![trigger out[k], right[y]]
                0 <= k < out.len() && j <= y < right.len() ==> ranks_before(
                    costs@,
                    out[k] as int,
                    right[y] as int,
                ),
            forall|x: int| 0 <= x < i ==> out@.contains(#[trigger] left[x]),
            forall|y: int| 0 <= y < j ==> out@.contains(#[trigger] right[y]),
        decreases left.len() - i + right.len() - j,
    {
        let take_left: bool = if i == left.len() {
            false
        } else if j == right.len() {
            true
        } else {
            !costs[right[j]].is_before(&costs[left[i]])
        };
        let ghost before = out@;
        let next: usize = if take_left {
            left[i]
        } else {
            right[j]
        };
        proof {
            if take_left {
                assert forall|y: int| j <= y < right.len() implies ranks_before(
                    costs@,
                    next as int,
                    #[trigger] right[y] as int,
                ) by {
                    assert(ranks_before(costs@, next as int, right[j as int] as int));
                    if y > j {
                        assert(ranks_before(costs@, right[j as int] as int, right[y] as int));
                        lemma_ranks_transitive(
                            costs@,
                            next as int,
                            right[j as int] as int,
                            right[y] as int,
                        );
                    }
                }
                assert forall|x: int| i < x < left.len() implies ranks_before(
                    costs@,
                    next as int,
                    #[trigger] left[x] as int,
                ) by {
                    assert(ranks_before(costs@, left[i as int] as int, left[x] as int));
                }
            } else {
                assert forall|x: int| i <= x < left.len() implies ranks_before(
                    costs@,
                    next as int,
                    #[trigger] left[x] as int,
                ) by {
                    assert(ranks_before(costs@, next as int, left[i as int] as int));
                    if x > i {
                        assert(ranks_before(costs@, left[i as int] as int, left[x] as int));
                        lemma_ranks_transitive(
                            costs@,
                            next as int,
                            left[i as int] as int,
                            left[x] as int,
                        );
                    }
                }
                assert forall|y: int| j < y < right.len() implies ranks_before(
                    costs@,
                    next as int,
                    #[trigger] right[y] as int,
                ) by {
                    assert(ranks_before(costs@, right[j as int] as int, right[y] as int));
                }
            }
        }
        out.push(next);
        if take_left {
            i = i + 1;
        } else {
            j = j + 1;
        }
        proof {
            let last = before.len() as int;
            assert(out@ == before.push(next));
            assert(out@[last] == next);
            assert forall|x: int| 0 <= x < i implies out@.contains(#[trigger] left[x]) by {
                if take_left && x == i - 1 {
                    assert(out@[last] == left[x]);
                } else {
                    let k = choose|k: int| 0 <= k < before.len() && before[k] == left[x];
                    assert(out@[k] == left[x]);
                }
            }
            assert forall|y: int| 0 <= y < j implies out@.contains(#[trigger] right[y]) by {
                if !take_left && y == j - 1 {
                    assert(out@[last] == right[y]);
                } else {
                    let k = choose|k: int| 0 <= k < before.len() && before[k] == right[y];
                    assert(out@[k] == right[y]);
                }
            }
            assert forall|a: int, b: int| 0 <= a < b < out.len() implies ranks_before(
                costs@,
                #[trigger] out[a] as int,
                #[trigger] out[b] as int,
            ) by {
                if b < last {
                    assert(ranks_before(costs@, before[a] as int, before[b] as int));
                } else if take_left {
                    assert(ranks_before(costs@, before[a] as int, left[i - 1] as int));
                } else {
                    assert(ranks_before(costs@, before[a] as int, right[j - 1] as int));
                }
            }
        }
    }
    proof {
        assert forall|p: usize| lo <= p < hi implies #[trigger] out@.contains(p) by {
            if p < mid {
                assert(left@.contains(p));
                let x = choose|x: int| 0 <= x < left@.len() && left@[x] == p;
                assert(out@.contains(left[x]));
            } else {
                assert(right@.contains(p));
                let y = choose|y: int| 0 <= y < right@.len() && right@[y] == p;
                assert(out@.contains(right[y]));
            }
        }
    }
    out
}

/// The stable order of the costs at the indices from `lo` up to `hi`.
pub fn order_range(costs: &[Cost], lo: usize, hi: usize) -> (order: Vec<usize>)
    requires
        lo <= hi <= costs@.len(),
    ensures
        is_stable_order(costs@, lo as int, hi as int, order@),
        order@ == stable_order_of(costs@, lo as int, hi as int),
    decreases hi - lo,
{
    let order = if hi - lo == 0 {
        Vec::new()
    } else if hi - lo == 1 {
        let mut single: Vec<usize> = Vec::new();
        single.push(lo);
        proof {
            assert(single@[0] == lo);
        }
        single
    } else {
        let mid: usize = lo + (hi - lo) / 2;
        let left = order_range(costs, lo, mid);
        let right = order_range(costs, mid, hi);
        merge(costs, &left, &right, Ghost(lo as int), Ghost(mid as int), Ghost(hi as int))
    };
    proof {
        assert(is_stable_order(costs@, lo as int, hi as int, order@));
        lemma_stable_order_unique(
            costs@,
            lo as int,
            hi as int,
            order@,
            stable_order_of(costs@, lo as int, hi as int),
        );
    }
    order
}

/// The indices of `costs` in the order in which a selector tries them: the
/// cheapest first, and among level costs the lowest index first.
pub fn stable_order(costs: &[Cost]) -> (order: Vec<usize>)
    ensures
        is_stable_order(costs@, 0, costs@.len() as int, order@),
        order@ == stable_order_of(costs@, 0, costs@.len() as int),
{
    order_range(costs, 0, costs.len())
}

} // verus!
