//! Ranking of variables: the variable that was touched most recently comes first.

use vstd::prelude::*;

verus! {

broadcast use vstd::seq_lib::group_seq_properties;

/// Holds of the values other than `index`.
pub open spec fn other_than(index: usize) -> spec_fn(usize) -> bool {
    |v: usize| v != index
}

/// `order` lists each of the variables `0..n` exactly once.
pub open spec fn is_ranking(order: Seq<usize>, n: nat) -> bool {
    &&& order.len() == n
    &&& order.no_duplicates()
    &&& forall|k: int| 0 <= k < order.len() ==> #[trigger] order[k] < n
}

/// Ranks variables by how recently they were touched: the most recently touched variable
/// comes first, and variables that were never touched follow in ascending order.
#[derive(Clone, Debug, PartialEq, Eq)]
pub struct SortRanker {
    order: Vec<usize>,
}

impl View for SortRanker {
    type V = Seq<usize>;

    closed spec fn view(&self) -> Seq<usize> {
        self.order@
    }
}

impl SortRanker {
    /// The ranking lists each variable exactly once.
    pub open spec fn wf(&self) -> bool {
        is_ranking(self@, self@.len())
    }

    /// A ranker of `n` variables, ranked in ascending order.
    pub fn of_size(n: usize) -> (r: Self)
        ensures
            r@.len() == n,
            forall|k: int| 0 <= k < n ==> #[trigger] r@[k] == k,
            r.wf(),
    {
        let mut order: Vec<usize> = Vec::new();
        let mut i: usize = 0;
        while i < n
            invariant
                i <= n,
                order@.len() == i,
                forall|k: int| 0 <= k < i ==> #[trigger] order@[k] == k,
            decreases n - i,
        {
            order.push(i);
            i += 1;
        }
        proof {
            assert forall|a: int, b: int| 0 <= a < order@.len() && 0 <= b < order@.len() && a != b implies order@[a]
                != order@[b] by {}
        }
        SortRanker { order }
    }

    /// A ranker with the given ranking.
    pub(crate) fn from_order(order: Vec<usize>) -> (r: Self)
        requires
            is_ranking(order@, order@.len()),
        ensures
            r@ == order@,
            r.wf(),
    {
        SortRanker { order }
    }

    /// The number of variables that are ranked.
    pub fn size(&self) -> (r: usize)
        ensures
            r == self@.len(),
    {
        self.order.len()
    }

    /// Moves `index` to the front of the ranking, keeping the order of the others.
    pub fn touch(&mut self, index: usize)
        requires
            old(self).wf(),
            index < old(self)@.len(),
        ensures
            final(self)@ == seq![index] + old(self)@.filter(other_than(index)),
            final(self)@.len() == old(self)@.len(),
            final(self).wf(),
    {
        let ghost old_order = self@;
        let ghost keep = other_than(index);
        let mut order: Vec<usize> = Vec::new();
        order.push(index);
        let mut i: usize = 0;
        while i < self.order.len()
            invariant
                old_order == self@,
                keep == other_than(index),
                i <= old_order.len(),
                order@ == seq![index] + old_order.subrange(0, i as int).filter(keep),
            decreases old_order.len() - i,
        {
            let v = self.order[i];
            proof {
                reveal_with_fuel(Seq::filter, 1);
                assert(old_order.subrange(0, i + 1).drop_last() =~= old_order.subrange(0, i as int));
            }
            if v != index {
                order.push(v);
                assert(order@ =~= seq![index] + old_order.subrange(0, i + 1).filter(keep));
            } else {
                assert(order@ =~= seq![index] + old_order.subrange(0, i + 1).filter(keep));
            }
            i += 1;
        }
        assert(old_order.subrange(0, old_order.len() as int) =~= old_order);
        proof {
            lemma_touch_is_ranking(old_order, index);
        }
        self.order = order;
    }

    /// The variables, highest ranked first.
    pub fn ranking(&self) -> (r: Vec<usize>)
        ensures
            r@ == self@,
    {
        self.order.clone()
    }
}

/// Moving one variable of a ranking to the front gives a ranking of the same variables.
pub proof fn lemma_touch_is_ranking(order: Seq<usize>, index: usize)
    requires
        is_ranking(order, order.len()),
        index < order.len(),
    ensures
        is_ranking(seq![index] + order.filter(other_than(index)), order.len()),
{
    let keep = other_than(index);
    let rest = order.filter(keep);
    let r = seq![index] + rest;
    lemma_filter_out_one(order, index, keep);
    assert forall|k: int| 0 <= k < r.len() implies #[trigger] r[k] < order.len() by {
        if k > 0 {
            assert(rest.contains(r[k]));
        }
    }
    assert forall|a: int, b: int| 0 <= a < r.len() && 0 <= b < r.len() && a != b implies r[a] != r[b] by {
        if a == 0 && b > 0 {
            assert(rest.contains(r[b]));
        } else if b == 0 && a > 0 {
            assert(rest.contains(r[a]));
        } else if a > 0 && b > 0 {
            assert(rest[a - 1] != rest[b - 1]);
        }
    }
    lemma_permutation_full(order);
    assert(order.contains(index));
}

/// Filtering one value out of a sequence without duplicates removes exactly its occurrence.
pub proof fn lemma_filter_out_one<A>(s: Seq<A>, x: A, p: spec_fn(A) -> bool)
    requires
        s.no_duplicates(),
        forall|v: A| #[trigger] p(v) <==> v != x,
    ensures
        s.filter(p).no_duplicates(),
        forall|v: A| #[trigger] s.filter(p).contains(v) <==> (s.contains(v) && v != x),
        s.filter(p).len() == if s.contains(x) { s.len() - 1 } else { s.len() as int },
    decreases s.len(),
{
    reveal_with_fuel(Seq::filter, 1);
    if s.len() > 0 {
        let r = s.drop_last();
        let last = s.last();
        assert(r.no_duplicates());
        lemma_filter_out_one(r, x, p);
        assert(s =~= r.push(last));
        assert(!r.contains(last));
        if p(last) {
            let q = r.filter(p);
            assert(s.filter(p) =~= q.push(last));
            assert(!q.contains(last));
            assert forall|a: int, b: int| 0 <= a < q.len() + 1 && 0 <= b < q.len() + 1 && a != b implies q.push(
                last,
            )[a] != q.push(last)[b] by {
                if a == q.len() {
                    assert(q[b] == q.push(last)[b]);
                } else if b == q.len() {
                    assert(q[a] == q.push(last)[a]);
                }
            }
        } else {
            assert(s.filter(p) =~= r.filter(p));
        }
        assert forall|v: A| #[trigger] s.contains(v) <==> (r.contains(v) || v == last) by {
            if s.contains(v) {
                let i = choose|i: int| 0 <= i < s.len() && s[i] == v;
                if i < r.len() {
                    assert(r[i] == v);
                }
            }
            if r.contains(v) {
                let i = choose|i: int| 0 <= i < r.len() && r[i] == v;
                assert(s[i] == v);
            }
        }
    }
}

/// A ranking of `0..n` contains each of these variables.
proof fn lemma_permutation_full(order: Seq<usize>)
    requires
        is_ranking(order, order.len()),
    ensures
        forall|v: usize| v < order.len() ==> #[trigger] order.contains(v),
{
    let n = order.len();
    let ints = order.map_values(|v: usize| v as int);
    assert forall|a: int, b: int| 0 <= a < b < ints.len() implies ints[a] != ints[b] by {
        assert(order[a] != order[b]);
    }
    assert(crate::vertex::is_index_permutation(ints, n as int));
    assert forall|v: usize| v < order.len() implies #[trigger] order.contains(v) by {
        crate::vertex::lemma_permutation_covers(ints, n as int, v as int);
        let a = choose|a: int| 0 <= a < ints.len() && ints[a] == v as int;
        assert(order[a] == v);
    }
}

} // verus!
