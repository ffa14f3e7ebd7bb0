//! Stable sorting by a key, through itertools.

use crate::vertex::is_index_permutation;
use itertools::Itertools;
use vstd::prelude::*;

verus! {

/// `r` is `items` reordered by the permutation `p` so that the second components do not decrease,
/// keeping items with equal second components in the order they had.
pub open spec fn is_stable_sort_by_second(items: Seq<(usize, usize)>, r: Seq<(usize, usize)>, p: Seq<int>) -> bool {
    &&& is_index_permutation(p, items.len() as int)
    &&& r.len() == items.len()
    &&& forall|k: int| 0 <= k < r.len() ==> #[trigger] r[k] == items[p[k]]
    &&& forall|i: int, j: int|
        0 <= i < j < r.len() ==> (#[trigger] r[i]).1 <= (#[trigger] r[j]).1 && (r[i].1 == r[j].1 ==> p[i]
            < p[j])
}

/// Sorts the pairs by their second component with itertools' `sorted_by_key`,
/// which the itertools documentation describes as a stable sort in ascending order.
#[verifier::external_body]
pub fn sorted_by_second(items: Vec<(usize, usize)>) -> (r: Vec<(usize, usize)>)
    ensures
        exists|p: Seq<int>| is_stable_sort_by_second(items@, r@, p),
{
    items.into_iter().sorted_by_key(|item| item.1).collect()
}

/// The first item of a stable sort by the second component has the least second component,
/// and comes first among the items that have it.
pub proof fn lemma_stable_sort_first(items: Seq<(usize, usize)>, r: Seq<(usize, usize)>, p: Seq<int>) -> (a: int)
    requires
        is_stable_sort_by_second(items, r, p),
        r.len() > 0,
    ensures
        0 <= a < items.len(),
        r[0] == items[a],
        forall|b: int|
            0 <= b < items.len() ==> items[a].1 <= #[trigger] items[b].1 && (items[b].1 == items[a].1 ==> a <= b),
{
    let a = p[0];
    assert(r[0] == items[p[0]]);
    assert forall|b: int| 0 <= b < items.len() implies items[a].1 <= #[trigger] items[b].1 && (items[b].1
        == items[a].1 ==> a <= b) by {
        crate::vertex::lemma_permutation_covers(p, items.len() as int, b);
        let q = choose|q: int| 0 <= q < p.len() && p[q] == b;
        assert(r[q] == items[b]);
        if q > 0 {
            assert(r[0].1 <= r[q].1);
        }
    }
    a
}

} // verus!
