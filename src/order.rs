//! Stable orderings of score lists.
use vstd::prelude::*;

verus! {

/// Position `i` of `a` comes before position `j` when its value is smaller, or when the
/// values are equal and `i` is the earlier position (a stable ascending order).
pub open spec fn stably_before(a: Seq<usize>, i: int, j: int) -> bool {
    a[i] < a[j] || (a[i] == a[j] && i < j)
}

/// `p` lists the positions of `a`, each once, in stable ascending order of their values.
pub open spec fn is_sorted_order(a: Seq<usize>, p: Seq<usize>) -> bool {
    &&& p.len() == a.len()
    &&& forall|k: int| 0 <= k < p.len() ==> #[trigger] p[k] < a.len()
    &&& forall|k: int, l: int|
        0 <= k < l < p.len() ==> stably_before(a, #[trigger] p[k] as int, #[trigger] p[l] as int)
}

/// The positions of `a` in stable ascending order of their values: the first entry is the
/// position of a smallest value, and equal values keep the order of their positions.
pub fn argsort(a: &[usize]) -> (order: Vec<usize>)
    ensures
        is_sorted_order(a@, order@),
{
    let n = a.len();
    let mut order: Vec<usize> = Vec::new();
    let mut i: usize = 0;
    while i < n
        invariant
            n == a@.len(),
            i <= n,
            order@.len() == i,
            forall|k: int| 0 <= k < order@.len() ==> #[trigger] order@[k] < i,
            forall|k: int, l: int|
                0 <= k < l < order@.len() ==> stably_before(
                    a@,
                    #[trigger] order@[k] as int,
                    #[trigger] order@[l] as int,
                ),
        decreases n - i,
    {
        let mut pos: usize = 0;
        while pos < order.len() && a[order[pos]] <= a[i]
            invariant
                n == a@.len(),
                i < n,
                pos <= order@.len(),
                forall|k: int| 0 <= k < order@.len() ==> #[trigger] order@[k] < i,
                forall|k: int| 0 <= k < pos ==> a@[#[trigger] order@[k] as int] <= a@[i as int],
            decreases order@.len() - pos,
        {
            pos = pos + 1;
        }
        let ghost prev = order@;
        proof {
            assert forall|l: int| pos <= l < prev.len() implies a@[i as int] < a@[
                #[trigger] prev[l] as int] by {
                if l > pos {
                    assert(stably_before(a@, prev[pos as int] as int, prev[l] as int));
                }
            }
        }
        order.insert(pos, i);
        proof {
            assert forall|k: int, l: int| 0 <= k < l < order@.len() implies stably_before(
                a@,
                #[trigger] order@[k] as int,
                #[trigger] order@[l] as int,
            ) by {
                if l < pos {
                    assert(order@[k] == prev[k] && order@[l] == prev[l]);
                } else if l == pos {
                    assert(order@[k] == prev[k]);
                } else if k < pos {
                    assert(order@[k] == prev[k] && order@[l] == prev[l - 1]);
                    assert(stably_before(a@, prev[k] as int, prev[l - 1] as int));
                } else if k == pos {
                    assert(order@[l] == prev[l - 1]);
                } else {
                    assert(order@[k] == prev[k - 1] && order@[l] == prev[l - 1]);
                    assert(stably_before(a@, prev[k - 1] as int, prev[l - 1] as int));
                }
            }
            assert forall|k: int| 0 <= k < order@.len() implies #[trigger] order@[k] < i + 1 by {
                if k < pos {
                    assert(order@[k] == prev[k]);
                } else if k > pos {
                    assert(order@[k] == prev[k - 1]);
                }
            }
        }
        i = i + 1;
    }
    order
}

} // verus!
