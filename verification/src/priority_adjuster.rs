//! Adjusts the ranking of variables after a plan has been found, so that variables that a
//! method reads are ranked above the variables that it writes.

use crate::ranking::{is_ranking, SortRanker};
use crate::vertex::{indices_below, is_topological_order, Vertex};
use vstd::prelude::*;

verus! {

broadcast use vstd::seq_lib::group_seq_properties;

/// The number of entries of `s` that are true.
pub open spec fn count_true(s: Seq<bool>) -> nat
    decreases s.len(),
{
    if s.len() == 0 {
        0
    } else {
        count_true(s.drop_last()) + if s.last() { 1nat } else { 0nat }
    }
}

/// Setting a false entry to true adds one to the count of true entries, which never exceeds the length.
proof fn lemma_count_true_set(s: Seq<bool>, i: int)
    requires
        0 <= i < s.len(),
        !s[i],
    ensures
        count_true(s.update(i, true)) == count_true(s) + 1,
        count_true(s) < s.len(),
    decreases s.len(),
{
    let u = s.update(i, true);
    if i == s.len() - 1 {
        assert(u.drop_last() =~= s.drop_last());
        lemma_count_true_le(s.drop_last());
    } else {
        assert(u.drop_last() =~= s.drop_last().update(i, true));
        lemma_count_true_set(s.drop_last(), i);
    }
}

/// The count of true entries is at most the length.
proof fn lemma_count_true_le(s: Seq<bool>)
    ensures
        count_true(s) <= s.len(),
    decreases s.len(),
{
    if s.len() > 0 {
        lemma_count_true_le(s.drop_last());
    }
}

/// The variables below `n` that do not occur in `order`, in ascending order.
pub open spec fn is_ascending_rest(rest: Seq<usize>, order: Seq<usize>, n: nat) -> bool {
    &&& forall|v: usize| v < n ==> (#[trigger] rest.contains(v) <==> !order.contains(v))
    &&& forall|k: int| 0 <= k < rest.len() ==> #[trigger] rest[k] < n
    &&& forall|i: int, j: int| 0 <= i < j < rest.len() ==> #[trigger] rest[i] < #[trigger] rest[j]
}

/// Every variable of `order` comes after the variables read by the methods of `plan` that write it.
pub open spec fn respects_dataflow<M: Vertex>(plan: Seq<M>, order: Seq<usize>) -> bool {
    forall|j: int, m: int, u: usize|
        0 <= j < order.len() && 0 <= m < plan.len() && #[trigger] plan[m].output_vars().contains(order[j])
            && #[trigger] plan[m].input_vars().contains(u) ==> exists|i: int| 0 <= i < j && order[i] == u
}

/// Every method of `plan` that writes `v` has fired.
pub open spec fn writers_fired<M: Vertex>(plan: Seq<M>, fired: Seq<bool>, v: usize) -> bool {
    forall|m: int| 0 <= m < plan.len() && #[trigger] plan[m].output_vars().contains(v) ==> fired[m]
}

/// Every variable that method `m` of `plan` reads has been visited.
pub open spec fn inputs_visited<M: Vertex>(plan: Seq<M>, popped: Seq<bool>, m: int) -> bool {
    forall|k: int| 0 <= k < plan[m].input_vars().len() ==> #[trigger] popped[plan[m].input_vars()[k] as int]
}

/// The priority of variable `v` under the ranking `old`: the entry at position `n - 1 - v`.
pub open spec fn priority_of(old: Seq<usize>, v: usize) -> int {
    old[old.len() - 1 - v] as int
}

/// Method `m` of `plan` can run once the variables of `prefix` are ranked: it reads some
/// variable, and every variable it reads is in `prefix`.
pub open spec fn fires<M: Vertex>(plan: Seq<M>, prefix: Seq<usize>, m: int) -> bool {
    &&& plan[m].input_vars().len() > 0
    &&& forall|k: int| 0 <= k < plan[m].input_vars().len() ==> prefix.contains(#[trigger] plan[m].input_vars()[k])
}

/// Variable `v` can be ranked after `prefix`: it is not in `prefix`, and every method of `plan`
/// that writes it can run.
pub open spec fn available<M: Vertex>(plan: Seq<M>, prefix: Seq<usize>, v: usize) -> bool {
    &&& !prefix.contains(v)
    &&& forall|m: int| 0 <= m < plan.len() && #[trigger] plan[m].output_vars().contains(v) ==> fires(plan, prefix, m)
}

/// `order` ranks, one at a time, the variable below `n` with the highest priority under `old`
/// among those that can be ranked after the ones before it, until no variable can be ranked.
pub open spec fn greedy_order<M: Vertex>(plan: Seq<M>, old: Seq<usize>, order: Seq<usize>, n: nat) -> bool {
    &&& forall|j: int| 0 <= j < order.len() ==> available(plan, order.subrange(0, j), #[trigger] order[j])
    &&& forall|j: int, u: usize|
        0 <= j < order.len() && u < n && #[trigger] available(plan, order.subrange(0, j), u) ==> priority_of(old, u)
            <= priority_of(old, #[trigger] order[j])
    &&& forall|u: usize| u < n ==> !#[trigger] available(plan, order, u)
}

/// Method `ord[t]` of `plan` cannot run after `order`, and writes a variable below `n` that is not
/// in `order`.
pub open spec fn blocked<M: Vertex>(plan: Seq<M>, order: Seq<usize>, ord: Seq<int>, n: nat, t: int) -> bool {
    &&& 0 <= t < ord.len()
    &&& !fires(plan, order, ord[t])
    &&& exists|x: usize| x < n && #[trigger] plan[ord[t]].output_vars().contains(x) && !order.contains(x)
}

/// `new` is the ranking that adjusting the ranking `old` to `plan` gives: a ranking of the same
/// variables that first lists, one at a time and by priority under `old`, the variables that the
/// dataflow of `plan` lets follow those before them ([`greedy_order`], [`respects_dataflow`]),
/// and then the other variables in ascending order.
pub open spec fn adjusted<M: Vertex>(plan: Seq<M>, old: Seq<usize>, new: Seq<usize>) -> bool {
    &&& is_ranking(new, old.len())
    &&& exists|order: Seq<usize>, rest: Seq<usize>|
        #![trigger respects_dataflow(plan, order), is_ascending_rest(rest, order, old.len())]
        new == order + rest && respects_dataflow(plan, order) && is_ascending_rest(rest, order, old.len()) && greedy_order(
            plan,
            old,
            order,
            old.len(),
        )
}

/// Every method of `plan` reads some variable, and none reads a variable it writes.
pub open spec fn reads_first<M: Vertex>(plan: Seq<M>) -> bool {
    &&& forall|m: int| 0 <= m < plan.len() ==> (#[trigger] plan[m]).input_vars().len() > 0
    &&& forall|m: int, x: usize|
        0 <= m < plan.len() && #[trigger] plan[m].input_vars().contains(x) ==> !plan[m].output_vars().contains(x)
}

/// No method is blocked when no variable can be ranked, in a plan with a topological order whose
/// methods all read a variable they do not write.
proof fn lemma_not_blocked<M: Vertex>(plan: Seq<M>, order: Seq<usize>, ord: Seq<int>, n: nat, t: int)
    requires
        is_topological_order(plan, ord),
        reads_first(plan),
        indices_below(plan, n),
        forall|u: usize| u < n ==> !#[trigger] available(plan, order, u),
        0 <= t,
    ensures
        !blocked(plan, order, ord, n, t),
    decreases t,
{
    if blocked(plan, order, ord, n, t) {
        let m = ord[t];
        // Some variable that the method reads is not ranked
        let k = choose|k: int| 0 <= k < plan[m].input_vars().len() && !order.contains(#[trigger] plan[m].input_vars()[k]);
        let x = plan[m].input_vars()[k];
        assert(plan[m].input_vars().contains(x));
        assert(x < n);
        assert(!available(plan, order, x));
        // One of its writers cannot run; it comes before `m` in the topological order
        let m2 = choose|m2: int| 0 <= m2 < plan.len() && #[trigger] plan[m2].output_vars().contains(x) && !fires(plan, order, m2);
        assert(m2 != m);
        crate::vertex::lemma_permutation_covers(ord, plan.len() as int, m2);
        let t2 = choose|t2: int| 0 <= t2 < ord.len() && ord[t2] == m2;
        let j = choose|j: int| 0 <= j < plan[m2].output_vars().len() && plan[m2].output_vars()[j] == x;
        assert(crate::vertex::feeds(plan[m2], plan[m]));
        assert(crate::vertex::dataflow_edge(plan, m2, m));
        if t2 > t {
            assert(!crate::vertex::dataflow_edge(plan, ord[t2], ord[t]));
        }
        assert(t2 != t);
        assert(blocked(plan, order, ord, n, t2));
        lemma_not_blocked(plan, order, ord, n, t2);
    }
}

/// When no variable can be ranked after `order`, and the plan has a topological order whose
/// methods all read a variable they do not write, every variable is in `order`.
pub proof fn lemma_all_ranked<M: Vertex>(plan: Seq<M>, order: Seq<usize>, ord: Seq<int>, n: nat)
    requires
        is_topological_order(plan, ord),
        reads_first(plan),
        indices_below(plan, n),
        forall|u: usize| u < n ==> !#[trigger] available(plan, order, u),
    ensures
        forall|u: usize| u < n ==> #[trigger] order.contains(u),
{
    assert forall|u: usize| u < n implies #[trigger] order.contains(u) by {
        if !order.contains(u) {
            assert(!available(plan, order, u));
            let m = choose|m: int| 0 <= m < plan.len() && #[trigger] plan[m].output_vars().contains(u) && !fires(plan, order, m);
            crate::vertex::lemma_permutation_covers(ord, plan.len() as int, m);
            let t = choose|t: int| 0 <= t < ord.len() && ord[t] == m;
            lemma_not_blocked(plan, order, ord, n, t);
            assert(blocked(plan, order, ord, n, t));
        }
    }
}

/// Whether every method of `plan` that writes `v` has fired.
fn all_writers_fired<M: Vertex>(plan: &[M], fired: &Vec<bool>, v: usize) -> (r: bool)
    requires
        fired@.len() == plan@.len(),
    ensures
        r == writers_fired(plan@, fired@, v),
{
    let mut m: usize = 0;
    while m < plan.len()
        invariant
            fired@.len() == plan@.len(),
            m <= plan@.len(),
            forall|j: int| 0 <= j < m && #[trigger] plan@[j].output_vars().contains(v) ==> fired@[j],
        decreases plan@.len() - m,
    {
        if !fired[m] && crate::constraint::contains_index(plan[m].outputs(), v) {
            return false;
        }
        m += 1;
    }
    true
}

/// Whether every variable that `method` reads has been visited.
fn all_inputs_visited<M: Vertex>(plan: &[M], popped: &Vec<bool>, m: usize) -> (r: bool)
    requires
        m < plan@.len(),
        forall|k: int| 0 <= k < plan@[m as int].input_vars().len() ==> #[trigger] plan@[m as int].input_vars()[k] < popped@.len(),
    ensures
        r == inputs_visited(plan@, popped@, m as int),
{
    let inputs = plan[m].inputs();
    let mut k: usize = 0;
    while k < inputs.len()
        invariant
            m < plan@.len(),
            inputs@ == plan@[m as int].input_vars(),
            forall|j: int| 0 <= j < inputs@.len() ==> #[trigger] inputs@[j] < popped@.len(),
            k <= inputs@.len(),
            forall|j: int| 0 <= j < k ==> #[trigger] popped@[inputs@[j] as int],
        decreases inputs@.len() - k,
    {
        if !popped[inputs[k]] {
            return false;
        }
        k += 1;
    }
    true
}

/// Creates a new ranking based on a plan: a variable is ranked only after the variables that
/// the methods writing it read. The variables whose writers have all run are ranked one at a
/// time, the one with the highest priority first, where the priority of variable `v` is the entry
/// of the old ranking at position `n - 1 - v`; a method runs once every variable it reads is
/// ranked. Variables that are never reached follow, in ascending order.
pub fn adjust_priorities<M: Vertex>(plan: &[M], ranker: &SortRanker) -> (r: SortRanker)
    requires
        ranker.wf(),
        indices_below(plan@, ranker@.len()),
    ensures
        r.wf(),
        r@.len() == ranker@.len(),
        exists|order: Seq<usize>, rest: Seq<usize>|
            #![trigger respects_dataflow(plan@, order), is_ascending_rest(rest, order, ranker@.len())]
            r@ == order + rest && order.no_duplicates() && respects_dataflow(plan@, order) && is_ascending_rest(
                rest,
                order,
                ranker@.len(),
            ) && greedy_order(plan@, ranker@, order, ranker@.len()) && ((exists|ord: Seq<int>|
                #[trigger] is_topological_order(plan@, ord)) && reads_first(plan@) ==> rest.len() == 0) && forall|v: usize|
                v < ranker@.len() && (forall|m: int| 0 <= m < plan@.len() ==> !(#[trigger] plan@[m].output_vars().contains(v)))
                    ==> #[trigger] order.contains(v),
        adjusted(plan@, ranker@, r@),
{
    let n_variables = ranker.size();
    let ghost n = n_variables as nat;

    // Create priority lookup
    let old_ranking = ranker.ranking();
    let mut priorities: Vec<usize> = Vec::new();
    let mut vi: usize = 0;
    while vi < n_variables
        invariant
            vi <= n_variables,
            old_ranking@.len() == n_variables,
            priorities@.len() == vi,
            forall|j: int| 0 <= j < vi ==> #[trigger] priorities@[j] == old_ranking@[n_variables - 1 - j],
        decreases n_variables - vi,
    {
        priorities.push(old_ranking[n_variables - 1 - vi]);
        vi += 1;
    }

    let mut fired: Vec<bool> = Vec::new();
    let mut m: usize = 0;
    while m < plan.len()
        invariant
            m <= plan@.len(),
            fired@.len() == m,
            forall|j: int| 0 <= j < m ==> !#[trigger] fired@[j],
        decreases plan@.len() - m,
    {
        fired.push(false);
        m += 1;
    }

    // Add the variables that no method writes
    let mut popped: Vec<bool> = Vec::new();
    let mut pushed: Vec<bool> = Vec::new();
    let mut pq: Vec<usize> = Vec::new();
    let mut v: usize = 0;
    while v < n_variables
        invariant
            v <= n_variables,
            fired@.len() == plan@.len(),
            forall|j: int| 0 <= j < plan@.len() ==> !#[trigger] fired@[j],
            popped@.len() == v,
            pushed@.len() == v,
            forall|j: int| 0 <= j < v ==> !#[trigger] popped@[j],
            pq@.no_duplicates(),
            forall|k: int| 0 <= k < pq@.len() ==> #[trigger] pq@[k] < v,
            forall|u: usize| u < v ==> (#[trigger] pushed@[u as int] <==> pq@.contains(u)),
            forall|u: usize| u < v ==> (#[trigger] pushed@[u as int] <==> writers_fired(plan@, fired@, u)),
            forall|u: usize|
                u < v && (forall|m: int| 0 <= m < plan@.len() ==> !(#[trigger] plan@[m].output_vars().contains(u)))
                    ==> #[trigger] pushed@[u as int],
        decreases n_variables - v,
    {
        let no_writer = all_writers_fired(plan, &fired, v);
        popped.push(false);
        pushed.push(no_writer);
        if no_writer {
            pq.push(v);
        }
        v += 1;
    }
    proof {
        assert(popped@ =~= Seq::new(n, |i: int| false));
        lemma_count_true_false(n);
        assert forall|m: int| 0 <= m < plan@.len() implies #[trigger] fired@[m] == fires(plan@, Seq::<usize>::empty(), m) by {
            if plan@[m].input_vars().len() > 0 {
                assert(!Seq::<usize>::empty().contains(plan@[m].input_vars()[0]));
            }
        }
    }

    // Create new priority order
    let mut new_order: Vec<usize> = Vec::new();
    while pq.len() > 0
        invariant
            n == n_variables,
            indices_below(plan@, n),
            priorities@.len() == n,
            fired@.len() == plan@.len(),
            popped@.len() == n,
            pushed@.len() == n,
            pq@.no_duplicates(),
            forall|k: int| 0 <= k < pq@.len() ==> #[trigger] pq@[k] < n,
            forall|u: usize| u < n && #[trigger] pq@.contains(u) ==> pushed@[u as int] && !popped@[u as int],
            forall|u: usize| u < n && #[trigger] popped@[u as int] ==> pushed@[u as int],
            forall|u: usize| u < n && #[trigger] pushed@[u as int] ==> pq@.contains(u) || popped@[u as int],
            forall|u: usize| u < n && #[trigger] pushed@[u as int] ==> writers_fired(plan@, fired@, u),
            forall|m: int| 0 <= m < plan@.len() && #[trigger] fired@[m] ==> inputs_visited(plan@, popped@, m),
            forall|u: usize|
                u < n && (forall|m: int| 0 <= m < plan@.len() ==> !(#[trigger] plan@[m].output_vars().contains(u)))
                    ==> #[trigger] pushed@[u as int],
            new_order@.no_duplicates(),
            forall|k: int| 0 <= k < new_order@.len() ==> #[trigger] new_order@[k] < n,
            forall|u: usize| u < n ==> (#[trigger] popped@[u as int] <==> new_order@.contains(u)),
            count_true(popped@) == new_order@.len(),
            respects_dataflow(plan@, new_order@),
            forall|j: int| 0 <= j < n ==> #[trigger] priorities@[j] == ranker@[n - 1 - j],
            ranker@.len() == n,
            forall|m: int| 0 <= m < plan@.len() ==> #[trigger] fired@[m] == fires(plan@, new_order@, m),
            forall|u: usize| u < n ==> (#[trigger] pushed@[u as int] <==> writers_fired(plan@, fired@, u)),
            forall|j: int| 0 <= j < new_order@.len() ==> available(plan@, new_order@.subrange(0, j), #[trigger] new_order@[j]),
            forall|j: int, u: usize|
                0 <= j < new_order@.len() && u < n && #[trigger] available(plan@, new_order@.subrange(0, j), u) ==> priority_of(
                    ranker@,
                    u,
                ) <= priority_of(ranker@, #[trigger] new_order@[j]),
        decreases n - count_true(popped@),
    {
        // Take the variable with the highest priority
        let mut best: usize = 0;
        let mut k: usize = 1;
        while k < pq.len()
            invariant
                1 <= pq@.len(),
                best < pq@.len(),
                k <= pq@.len(),
                priorities@.len() == n,
                forall|j: int| 0 <= j < pq@.len() ==> #[trigger] pq@[j] < n,
                forall|j: int| 0 <= j < k ==> priorities@[#[trigger] pq@[j] as int] <= priorities@[pq@[best as int] as int],
            decreases pq@.len() - k,
        {
            if priorities[pq[k]] > priorities[pq[best]] {
                best = k;
            }
            k += 1;
        }
        let ghost pq_before = pq@;
        let ghost fired_start = fired@;
        proof {
            // The variables waiting are those that can be ranked now
            assert forall|u: usize| u < n implies (pq@.contains(u) <==> available(plan@, new_order@, u)) by {
                if pq@.contains(u) {
                    assert(pushed@[u as int] && !popped@[u as int]);
                    assert(writers_fired(plan@, fired@, u));
                    assert forall|m: int| 0 <= m < plan@.len() && #[trigger] plan@[m].output_vars().contains(u) implies fires(
                        plan@,
                        new_order@,
                        m,
                    ) by {
                        assert(fired@[m]);
                    }
                }
                if available(plan@, new_order@, u) {
                    assert forall|m: int| 0 <= m < plan@.len() && #[trigger] plan@[m].output_vars().contains(u) implies fired@[m] by {
                        assert(fires(plan@, new_order@, m));
                    }
                    assert(writers_fired(plan@, fired@, u));
                    assert(pushed@[u as int]);
                    assert(!popped@[u as int]);
                }
            }
        }
        let current = pq.remove(best);
        assert(pq_before.contains(current));
        proof {
            assert(pq_before[best as int] == current);
            assert forall|u: usize| u < n && available(plan@, new_order@, u) implies priority_of(ranker@, u) <= priority_of(
                ranker@,
                current,
            ) by {
                assert(pq_before.contains(u));
                let i = choose|i: int| 0 <= i < pq_before.len() && pq_before[i] == u;
                assert(priorities@[pq_before[i] as int] <= priorities@[pq_before[best as int] as int]);
            }
        }
        let ghost popped_before = popped@;
        let ghost order_before = new_order@;
        proof {
            lemma_count_true_set(popped_before, current as int);
        }
        popped.set(current, true);
        new_order.push(current);
        proof {
            assert forall|u: usize| u < n && #[trigger] pq@.contains(u) implies pushed@[u as int] && !popped@[u as int] by {
                let i = choose|i: int| 0 <= i < pq@.len() && pq@[i] == u;
                if i < best {
                    assert(pq_before[i] == u);
                } else {
                    assert(pq_before[i + 1] == u);
                }
                assert(pq_before.contains(u));
                if u == current {
                    assert(pq_before[best as int] == current);
                    assert(false);
                }
            }
            assert forall|u: usize| u < n && #[trigger] pushed@[u as int] implies pq@.contains(u) || popped@[u as int] by {
                if pq_before.contains(u) && u != current {
                    let i = choose|i: int| 0 <= i < pq_before.len() && pq_before[i] == u;
                    if i < best {
                        assert(pq@[i] == u);
                    } else {
                        assert(i != best);
                        assert(pq@[i - 1] == u);
                    }
                }
            }
            assert forall|m: int| 0 <= m < plan@.len() && #[trigger] fired@[m] implies inputs_visited(plan@, popped@, m) by {
                assert(inputs_visited(plan@, popped_before, m));
            }
            assert forall|u: usize| u < n implies (#[trigger] popped@[u as int] <==> new_order@.contains(u)) by {
                if u != current && new_order@.contains(u) {
                    let i = choose|i: int| 0 <= i < new_order@.len() && new_order@[i] == u;
                    assert(i < order_before.len());
                    assert(order_before[i] == u);
                }
                if u != current && popped_before[u as int] {
                    assert(order_before.contains(u));
                    let i = choose|i: int| 0 <= i < order_before.len() && order_before[i] == u;
                    assert(new_order@[i] == u);
                }
                if u == current {
                    assert(new_order@[new_order@.len() - 1] == u);
                }
            }
            assert(!order_before.contains(current));
            assert forall|j: int, m: int, u: usize|
                0 <= j < new_order@.len() && 0 <= m < plan@.len() && #[trigger] plan@[m].output_vars().contains(new_order@[j])
                    && #[trigger] plan@[m].input_vars().contains(u) implies exists|i: int| 0 <= i < j && new_order@[i] == u by {
                if j < order_before.len() {
                    assert(new_order@[j] == order_before[j]);
                    let i = choose|i: int| 0 <= i < j && order_before[i] == u;
                    assert(new_order@[i] == u);
                } else {
                    assert(writers_fired(plan@, fired@, current));
                    assert(fired@[m]);
                    assert(inputs_visited(plan@, popped_before, m));
                    let q = choose|q: int| 0 <= q < plan@[m].input_vars().len() && plan@[m].input_vars()[q] == u;
                    assert(popped_before[plan@[m].input_vars()[q] as int]);
                    assert(order_before.contains(u));
                    let i = choose|i: int| 0 <= i < order_before.len() && order_before[i] == u;
                    assert(new_order@[i] == u);
                }
            }
        }

        proof {
            assert(new_order@.subrange(0, order_before.len() as int) =~= order_before);
            assert forall|j: int| 0 <= j < new_order@.len() implies available(
                plan@,
                new_order@.subrange(0, j),
                #[trigger] new_order@[j],
            ) by {
                if j < order_before.len() {
                    assert(new_order@.subrange(0, j) =~= order_before.subrange(0, j));
                    assert(new_order@[j] == order_before[j]);
                }
            }
            assert forall|j: int, u: usize|
                0 <= j < new_order@.len() && u < n && #[trigger] available(plan@, new_order@.subrange(0, j), u) implies priority_of(
                ranker@,
                u,
            ) <= priority_of(ranker@, #[trigger] new_order@[j]) by {
                if j < order_before.len() {
                    assert(new_order@.subrange(0, j) =~= order_before.subrange(0, j));
                    assert(new_order@[j] == order_before[j]);
                    assert(available(plan@, order_before.subrange(0, j), u));
                } else {
                    assert(new_order@.subrange(0, j) =~= order_before);
                }
            }
            // A method that does not read `current` runs after it exactly when it ran before it
            assert forall|m: int| 0 <= m < plan@.len() && !plan@[m].input_vars().contains(current) implies fires(plan@, new_order@, m)
                == fires(plan@, order_before, m) by {
                if fires(plan@, new_order@, m) {
                    assert forall|k: int| 0 <= k < plan@[m].input_vars().len() implies order_before.contains(
                        #[trigger] plan@[m].input_vars()[k],
                    ) by {
                        let x = plan@[m].input_vars()[k];
                        assert(new_order@.contains(x));
                        assert(x != current);
                        let i = choose|i: int| 0 <= i < new_order@.len() && new_order@[i] == x;
                        assert(order_before[i] == x);
                    }
                }
                if fires(plan@, order_before, m) {
                    assert forall|k: int| 0 <= k < plan@[m].input_vars().len() implies new_order@.contains(
                        #[trigger] plan@[m].input_vars()[k],
                    ) by {
                        let x = plan@[m].input_vars()[k];
                        let i = choose|i: int| 0 <= i < order_before.len() && order_before[i] == x;
                        assert(new_order@[i] == x);
                    }
                }
            }
        }

        // Fire the methods that can now run, and add the variables whose writers have all run
        let mut mi: usize = 0;
        while mi < plan.len()
            invariant
                n == n_variables,
                indices_below(plan@, n),
                fired@.len() == plan@.len(),
                popped@.len() == n,
                pushed@.len() == n,
                mi <= plan@.len(),
                pq@.no_duplicates(),
                forall|k: int| 0 <= k < pq@.len() ==> #[trigger] pq@[k] < n,
                forall|u: usize| u < n && #[trigger] pq@.contains(u) ==> pushed@[u as int] && !popped@[u as int],
                forall|u: usize| u < n && #[trigger] popped@[u as int] ==> pushed@[u as int],
                forall|u: usize| u < n && #[trigger] pushed@[u as int] ==> pq@.contains(u) || popped@[u as int],
                forall|u: usize| u < n && #[trigger] pushed@[u as int] ==> writers_fired(plan@, fired@, u),
                forall|m: int| 0 <= m < plan@.len() && #[trigger] fired@[m] ==> inputs_visited(plan@, popped@, m),
                forall|u: usize|
                    u < n && (forall|m: int| 0 <= m < plan@.len() ==> !(#[trigger] plan@[m].output_vars().contains(u)))
                        ==> #[trigger] pushed@[u as int],
                forall|m: int| 0 <= m < mi ==> #[trigger] fired@[m] == fires(plan@, new_order@, m),
                forall|m: int| mi <= m < plan@.len() ==> #[trigger] fired@[m] == fired_start[m],
                forall|m: int| 0 <= m < plan@.len() ==> #[trigger] fired_start[m] == fires(plan@, order_before, m),
                fired_start.len() == plan@.len(),
                forall|u: usize| u < n ==> (#[trigger] pushed@[u as int] <==> writers_fired(plan@, fired@, u)),
                forall|m: int|
                    0 <= m < plan@.len() && !plan@[m].input_vars().contains(current) ==> fires(plan@, new_order@, m) == fires(
                        plan@,
                        order_before,
                        m,
                    ),
                forall|u: usize| u < n ==> (#[trigger] popped@[u as int] <==> new_order@.contains(u)),
                current < n,
                new_order@ == order_before.push(current),
                !order_before.contains(current),
            decreases plan@.len() - mi,
        {
            let ghost fired_before = fired@;
            let ghost pushed_before_m = pushed@;
            if !fired[mi] && crate::constraint::contains_index(plan[mi].inputs(), current) && all_inputs_visited(
                plan,
                &popped,
                mi,
            ) {
                fired.set(mi, true);
                proof {
                    assert forall|u: usize| u < n && #[trigger] pushed@[u as int] implies writers_fired(plan@, fired@, u) by {
                        assert(writers_fired(plan@, fired_before, u));
                    }
                    assert forall|m: int| 0 <= m < plan@.len() && #[trigger] fired@[m] implies inputs_visited(plan@, popped@, m) by {
                        if m != mi {
                            assert(fired_before[m]);
                        }
                    }
                }
                let outputs = plan[mi].outputs();
                let mut k: usize = 0;
                while k < outputs.len()
                    invariant
                        n == n_variables,
                        indices_below(plan@, n),
                        mi < plan@.len(),
                        outputs@ == plan@[mi as int].output_vars(),
                        k <= outputs@.len(),
                        fired@.len() == plan@.len(),
                        popped@.len() == n,
                        pushed@.len() == n,
                        pq@.no_duplicates(),
                        forall|k: int| 0 <= k < pq@.len() ==> #[trigger] pq@[k] < n,
                        forall|u: usize| u < n && #[trigger] pq@.contains(u) ==> pushed@[u as int] && !popped@[u as int],
                        forall|u: usize| u < n && #[trigger] popped@[u as int] ==> pushed@[u as int],
                        forall|u: usize| u < n && #[trigger] pushed@[u as int] ==> pq@.contains(u) || popped@[u as int],
                        forall|u: usize| u < n && #[trigger] pushed@[u as int] ==> writers_fired(plan@, fired@, u),
                        forall|m: int| 0 <= m < plan@.len() && #[trigger] fired@[m] ==> inputs_visited(plan@, popped@, m),
                        forall|u: usize|
                            u < n && (forall|m: int| 0 <= m < plan@.len() ==> !(#[trigger] plan@[m].output_vars().contains(u)))
                                ==> #[trigger] pushed@[u as int],
                        forall|u: usize| u < n && #[trigger] pushed@[u as int] ==> writers_fired(plan@, fired@, u),
                        forall|u: usize|
                            u < n && writers_fired(plan@, fired@, u) && !#[trigger] pushed@[u as int] ==> outputs@.subrange(
                                k as int,
                                outputs@.len() as int,
                            ).contains(u),
                    decreases outputs@.len() - k,
                {
                    let o = outputs[k];
                    assert(plan@[mi as int].output_vars()[k as int] < n);
                    if !pushed[o] && all_writers_fired(plan, &fired, o) {
                        let ghost pq_old = pq@;
                        let ghost pushed_old = pushed@;
                        pushed.set(o, true);
                        pq.push(o);
                        proof {
                            assert(!pq_old.contains(o));
                            assert forall|u: usize| u < n && #[trigger] pq@.contains(u) implies pushed@[u as int] && !popped@[u as int] by {
                                if u != o {
                                    let i = choose|i: int| 0 <= i < pq@.len() && pq@[i] == u;
                                    assert(i < pq_old.len());
                                    assert(pq_old[i] == u);
                                }
                            }
                            assert forall|u: usize| u < n && #[trigger] pushed@[u as int] implies pq@.contains(u) || popped@[u as int] by {
                                if u != o {
                                    assert(pushed_old[u as int]);
                                    if pq_old.contains(u) {
                                        let i = choose|i: int| 0 <= i < pq_old.len() && pq_old[i] == u;
                                        assert(pq@[i] == u);
                                    }
                                } else {
                                    assert(pq@[pq@.len() - 1] == o);
                                }
                            }
                        }
                    }
                    k += 1;
                }
            }
            proof {
                assert(fired@[mi as int] == fires(plan@, new_order@, mi as int)) by {
                    if plan@[mi as int].input_vars().contains(current) {
                        assert(!fires(plan@, order_before, mi as int)) by {
                            let k = choose|k: int| 0 <= k < plan@[mi as int].input_vars().len() && plan@[mi as int].input_vars()[k] == current;
                            assert(!order_before.contains(plan@[mi as int].input_vars()[k]));
                        }
                        if fires(plan@, new_order@, mi as int) {
                            assert(inputs_visited(plan@, popped@, mi as int)) by {
                                assert forall|k: int| 0 <= k < plan@[mi as int].input_vars().len() implies #[trigger] popped@[plan@[mi as int].input_vars()[k] as int] by {
                                    assert(new_order@.contains(plan@[mi as int].input_vars()[k]));
                                }
                            }
                        }
                        if fired@[mi as int] && fired_before[mi as int] == false {
                            assert(inputs_visited(plan@, popped@, mi as int));
                            assert forall|k: int| 0 <= k < plan@[mi as int].input_vars().len() implies new_order@.contains(
                                #[trigger] plan@[mi as int].input_vars()[k],
                            ) by {
                                assert(popped@[plan@[mi as int].input_vars()[k] as int]);
                            }
                        }
                    }
                }
            }
            mi += 1;
        }
    }

    proof {
        // No variable can be ranked any more
        assert forall|u: usize| u < n implies !#[trigger] available(plan@, new_order@, u) by {
            if available(plan@, new_order@, u) {
                assert forall|m: int| 0 <= m < plan@.len() && #[trigger] plan@[m].output_vars().contains(u) implies fired@[m] by {
                    assert(fires(plan@, new_order@, m));
                }
                assert(writers_fired(plan@, fired@, u));
                assert(pushed@[u as int]);
                assert(!popped@[u as int]);
                assert(pq@.contains(u));
            }
        }
    }

    // The variables that were never reached follow, in ascending order
    let mut order = new_order;
    let ghost ord = order@;
    let mut rest: Vec<usize> = Vec::new();
    let mut v: usize = 0;
    while v < n_variables
        invariant
            n == n_variables,
            v <= n,
            popped@.len() == n,
            ord.no_duplicates(),
            forall|u: usize| u < n ==> (#[trigger] popped@[u as int] <==> ord.contains(u)),
            forall|k: int| 0 <= k < rest@.len() ==> #[trigger] rest@[k] < v,
            forall|u: usize| u < v ==> (#[trigger] rest@.contains(u) <==> !ord.contains(u)),
            forall|i: int, j: int| 0 <= i < j < rest@.len() ==> #[trigger] rest@[i] < #[trigger] rest@[j],
            rest@.len() + count_true(popped@.subrange(0, v as int)) == v,
        decreases n - v,
    {
        proof {
            assert(popped@.subrange(0, v + 1).drop_last() =~= popped@.subrange(0, v as int));
        }
        if !popped[v] {
            rest.push(v);
        }
        v += 1;
    }
    assert(popped@.subrange(0, n as int) =~= popped@);
    let ghost rs = rest@;
    order.append(&mut rest);
    proof {
        let r = order@;
        assert(r =~= ord + rs);
        assert forall|k: int| 0 <= k < r.len() implies #[trigger] r[k] < n by {
            if k >= ord.len() {
                assert(r[k] == rs[k - ord.len()]);
            }
        }
        assert forall|a: int, b: int| 0 <= a < r.len() && 0 <= b < r.len() && a != b implies r[a] != r[b] by {
            if a < ord.len() && b >= ord.len() {
                assert(rs.contains(r[b]));
                assert(ord.contains(r[a]));
            } else if b < ord.len() && a >= ord.len() {
                assert(rs.contains(r[a]));
                assert(ord.contains(r[b]));
            } else if a >= ord.len() && b >= ord.len() {
                if a < b {
                    assert(rs[a - ord.len()] < rs[b - ord.len()]);
                } else {
                    assert(rs[b - ord.len()] < rs[a - ord.len()]);
                }
            }
        }
        assert(is_ranking(r, n));
        assert(is_ascending_rest(rs, ord, n));
        assert forall|u: usize|
            u < n && (forall|m: int| 0 <= m < plan@.len() ==> !(#[trigger] plan@[m].output_vars().contains(u))) implies #[trigger] ord.contains(
            u,
        ) by {
            assert(pushed@[u as int]);
            assert(!pq@.contains(u));
        }
    }
    proof {
        if exists|tord: Seq<int>| #[trigger] is_topological_order(plan@, tord) {
            if reads_first(plan@) {
                let tord = choose|tord: Seq<int>| #[trigger] is_topological_order(plan@, tord);
                lemma_all_ranked(plan@, ord, tord, n);
                if rs.len() > 0 {
                    assert(rs.contains(rs[0]));
                    assert(ord.contains(rs[0]));
                }
            }
        }
    }
    SortRanker::from_order(order)
}

/// A sequence of false entries has no true entry.
proof fn lemma_count_true_false(n: nat)
    ensures
        count_true(Seq::new(n, |i: int| false)) == 0,
    decreases n,
{
    if n > 0 {
        assert(Seq::new(n, |i: int| false).drop_last() =~= Seq::new((n - 1) as nat, |i: int| false));
        lemma_count_true_false((n - 1) as nat);
    }
}

/// Two greedy orders of the same plan, under a ranking whose priorities are distinct, agree on
/// their first `j` entries, as far as both reach.
proof fn lemma_greedy_prefix<M: Vertex>(plan: Seq<M>, old: Seq<usize>, a: Seq<usize>, b: Seq<usize>, j: int)
    requires
        is_ranking(old, old.len()),
        greedy_order(plan, old, a, old.len()),
        greedy_order(plan, old, b, old.len()),
        forall|k: int| 0 <= k < a.len() ==> #[trigger] a[k] < old.len(),
        forall|k: int| 0 <= k < b.len() ==> #[trigger] b[k] < old.len(),
        0 <= j,
    ensures
        forall|k: int| 0 <= k < j && k < a.len() && k < b.len() ==> #[trigger] a[k] == b[k],
    decreases j,
{
    if j > 0 {
        lemma_greedy_prefix(plan, old, a, b, j - 1);
        let i = j - 1;
        if i < a.len() && i < b.len() {
            let n = old.len() as int;
            assert(a.subrange(0, i) =~= b.subrange(0, i));
            let x = a[i];
            let y = b[i];
            assert(available(plan, a.subrange(0, i), x));
            assert(available(plan, b.subrange(0, i), y));
            assert(priority_of(old, y) <= priority_of(old, x));
            assert(priority_of(old, x) <= priority_of(old, y));
            assert(old[n - 1 - x] == old[n - 1 - y]);
            if x != y {
                assert(old[n - 1 - x] != old[n - 1 - y]);
            }
        }
    }
}

/// Two strictly ascending sequences of the variables below `n` that are not in `order` are equal.
proof fn lemma_ascending_unique(order: Seq<usize>, n: nat, s: Seq<usize>, t: Seq<usize>)
    requires
        is_ascending_rest(s, order, n),
        is_ascending_rest(t, order, n),
    ensures
        s == t,
{
    assert forall|k: int| 0 <= k < s.len() && k < t.len() implies s[k] == t[k] by {
        lemma_ascending_prefix(order, n, s, t, k + 1);
    }
    if s.len() < t.len() {
        let v = t[s.len() as int];
        assert(t.contains(v));
        assert(s.contains(v));
        let q = choose|q: int| 0 <= q < s.len() && s[q] == v;
        lemma_ascending_prefix(order, n, s, t, q + 1);
        assert(t[q] == v);
    } else if t.len() < s.len() {
        let v = s[t.len() as int];
        assert(s.contains(v));
        assert(t.contains(v));
        let q = choose|q: int| 0 <= q < t.len() && t[q] == v;
        lemma_ascending_prefix(order, n, s, t, q + 1);
        assert(s[q] == v);
    }
    assert(s =~= t);
}

/// Two strictly ascending sequences of the variables below `n` not in `order` agree on their
/// first `j` entries.
proof fn lemma_ascending_prefix(order: Seq<usize>, n: nat, s: Seq<usize>, t: Seq<usize>, j: int)
    requires
        is_ascending_rest(s, order, n),
        is_ascending_rest(t, order, n),
        0 <= j,
    ensures
        forall|k: int| 0 <= k < j && k < s.len() && k < t.len() ==> #[trigger] s[k] == t[k],
    decreases j,
{
    if j > 0 {
        lemma_ascending_prefix(order, n, s, t, j - 1);
        let i = j - 1;
        if i < s.len() && i < t.len() && s[i] != t[i] {
            if s[i] < t[i] {
                let v = s[i];
                assert(s.contains(v));
                assert(t.contains(v));
                let q = choose|q: int| 0 <= q < t.len() && t[q] == v;
                if q < i {
                    assert(s[q] == t[q]);
                } else if q > i {
                    assert(t[i] < t[q]);
                }
            } else {
                let v = t[i];
                assert(t.contains(v));
                assert(s.contains(v));
                let q = choose|q: int| 0 <= q < s.len() && s[q] == v;
                if q < i {
                    assert(s[q] == t[q]);
                } else if q > i {
                    assert(s[i] < s[q]);
                }
            }
        }
    }
}

/// Adjusting a ranking to a plan has one outcome: two rankings that both adjust the ranking `old`
/// to `plan` are the same.
pub proof fn law_adjusted_unique<M: Vertex>(plan: Seq<M>, old: Seq<usize>, a: Seq<usize>, b: Seq<usize>)
    requires
        is_ranking(old, old.len()),
        adjusted(plan, old, a),
        adjusted(plan, old, b),
    ensures
        a == b,
{
    let n = old.len();
    let (oa, ra) = choose|order: Seq<usize>, rest: Seq<usize>|
        #![trigger respects_dataflow(plan, order), is_ascending_rest(rest, order, n)]
        a == order + rest && respects_dataflow(plan, order) && is_ascending_rest(rest, order, n) && greedy_order(plan, old, order, n);
    let (ob, rb) = choose|order: Seq<usize>, rest: Seq<usize>|
        #![trigger respects_dataflow(plan, order), is_ascending_rest(rest, order, n)]
        b == order + rest && respects_dataflow(plan, order) && is_ascending_rest(rest, order, n) && greedy_order(plan, old, order, n);
    assert forall|k: int| 0 <= k < oa.len() implies #[trigger] oa[k] < n by {
        assert(a[k] == oa[k]);
    }
    assert forall|k: int| 0 <= k < ob.len() implies #[trigger] ob[k] < n by {
        assert(b[k] == ob[k]);
    }
    lemma_greedy_prefix(plan, old, oa, ob, (oa.len() + ob.len()) as int);
    if oa.len() < ob.len() {
        assert(ob.subrange(0, oa.len() as int) =~= oa);
        let u = ob[oa.len() as int];
        assert(available(plan, ob.subrange(0, oa.len() as int), u));
    } else if ob.len() < oa.len() {
        assert(oa.subrange(0, ob.len() as int) =~= ob);
        let u = oa[ob.len() as int];
        assert(available(plan, oa.subrange(0, ob.len() as int), u));
    }
    assert(oa =~= ob);
    lemma_ascending_unique(oa, n, ra, rb);
}

} // verus!
