//! A function for topologically sorting plans.
//! This must be done before executing them.

use crate::vertex::{
    dataflow_edge, has_dataflow_cycle, indices_below, is_dataflow_cycle, is_topological_order,
    lemma_topological_order_excludes_cycle, Vertex,
};
use vstd::prelude::*;

verus! {

broadcast use vstd::seq_lib::group_seq_properties;

/// `v` is a successor of `u` in the adjacency list `adj`.
pub open spec fn adj_edge(adj: Seq<Seq<usize>>, u: int, v: int) -> bool {
    &&& 0 <= u < adj.len()
    &&& 0 <= v < adj.len()
    &&& adj[u].contains(v as usize)
}

/// The successor lists of an adjacency list, as mathematical sequences.
pub open spec fn adj_view(adj: Seq<Vec<usize>>) -> Seq<Seq<usize>> {
    adj.map_values(|v: Vec<usize>| v@)
}

/// Every successor in `adj` is a node of the graph, and no node is its own successor.
pub open spec fn adj_wf(adj: Seq<Seq<usize>>) -> bool {
    forall|u: int, k: int|
        0 <= u < adj.len() && 0 <= k < adj[u].len() ==> #[trigger] adj[u][k] < adj.len() && adj[u][k]
            != u
}

/// `p` is a closed walk along the edges of `adj`.
pub open spec fn is_adj_cycle(adj: Seq<Seq<usize>>, p: Seq<int>) -> bool {
    &&& p.len() >= 2
    &&& p[0] == p.last()
    &&& forall|k: int| 0 <= k < p.len() - 1 ==> #[trigger] adj_edge(adj, p[k], p[k + 1])
}

/// The number of `true` entries.
pub open spec fn num_marked(s: Seq<bool>) -> nat
    decreases s.len(),
{
    if s.len() == 0 {
        0
    } else {
        num_marked(s.drop_last()) + if s.last() {
            1nat
        } else {
            0nat
        }
    }
}

proof fn lemma_num_marked_bounded(s: Seq<bool>)
    ensures
        num_marked(s) <= s.len(),
    decreases s.len(),
{
    if s.len() > 0 {
        lemma_num_marked_bounded(s.drop_last());
    }
}

proof fn lemma_num_marked_monotone(a: Seq<bool>, b: Seq<bool>, i: int)
    requires
        a.len() == b.len(),
        forall|j: int| 0 <= j < a.len() && #[trigger] a[j] ==> b[j],
        0 <= i < a.len(),
        !a[i],
        b[i],
    ensures
        num_marked(a) < num_marked(b),
    decreases a.len(),
{
    lemma_num_marked_le(a.drop_last(), b.drop_last());
    if i < a.len() - 1 {
        lemma_num_marked_monotone(a.drop_last(), b.drop_last(), i);
    }
}

proof fn lemma_num_marked_le(a: Seq<bool>, b: Seq<bool>)
    requires
        a.len() == b.len(),
        forall|j: int| 0 <= j < a.len() && #[trigger] a[j] ==> b[j],
    ensures
        num_marked(a) <= num_marked(b),
    decreases a.len(),
{
    if a.len() > 0 {
        lemma_num_marked_le(a.drop_last(), b.drop_last());
    }
}

/// The state of the depth-first search: `path` is the stack of nodes being visited,
/// and `order` lists the finished nodes in the order they were finished.
pub open spec fn dfs_inv(
    adj: Seq<Seq<usize>>,
    marked: Seq<bool>,
    visiting: Seq<bool>,
    order: Seq<usize>,
    path: Seq<int>,
) -> bool {
    let n = adj.len();
    &&& adj_wf(adj)
    &&& marked.len() == n
    &&& visiting.len() == n
    &&& forall|x: int| 0 <= x < n && #[trigger] visiting[x] ==> marked[x]
    &&& forall|x: int| 0 <= x < n ==> (#[trigger] visiting[x] <==> path.contains(x))
    &&& forall|k: int| 0 <= k < path.len() ==> 0 <= #[trigger] path[k] < n
    &&& forall|k: int| 0 <= k < path.len() - 1 ==> #[trigger] adj_edge(adj, path[k], path[k + 1])
    &&& forall|k: int| 0 <= k < order.len() ==> #[trigger] order[k] < n
    &&& order.no_duplicates()
    &&& forall|x: int|
        0 <= x < n ==> (order.contains(x as usize) <==> (#[trigger] marked[x] && !visiting[x]))
    &&& forall|a: int, b: int|
        0 <= a < b < order.len() ==> !adj_edge(adj, #[trigger] order[a] as int, #[trigger] order[b] as int)
    &&& forall|x: int, y: int|
        #[trigger] adj_edge(adj, x, y) && marked[x] && !visiting[x] ==> marked[y] && !visiting[y]
}

/// Topologically sort a slice of method references.
///
/// Returns `None` exactly when the dataflow graph of `methods` has a cycle; otherwise every
/// method appears exactly once, and no method appears before one that writes a variable it reads.
pub fn toposort<M>(methods: &[M], n_variables: usize) -> (r: Option<Vec<&M>>) where M: Vertex
    requires
        indices_below(methods@, n_variables as nat),
    ensures
        r is Some <==> !has_dataflow_cycle(methods@),
        r matches Some(sorted) ==> exists|ord: Seq<int>|
            #[trigger] is_topological_order(methods@, ord) && sorted@.len() == ord.len() && forall|
                k: int,
            |
                0 <= k < ord.len() ==> #[trigger] sorted@[k] == methods@[ord[k]],
{
    let ord = toposort_indices(methods, n_variables);
    match ord {
        None => None,
        Some(ord) => {
            proof {
                let iord = ord@.map_values(|i: usize| i as int);
                assert forall|j: int| 0 <= j < ord.len() implies 0 <= #[trigger] ord@[j] < methods@.len() by {
                    assert(iord[j] == ord@[j] as int);
                }
            }
            let mut sorted: Vec<&M> = Vec::new();
            let mut k: usize = 0;
            while k < ord.len()
                invariant
                    k <= ord.len(),
                    sorted@.len() == k,
                    forall|j: int| 0 <= j < ord.len() ==> 0 <= #[trigger] ord@[j] < methods@.len(),
                    forall|j: int| 0 <= j < k ==> #[trigger] sorted@[j] == methods@[ord@[j] as int],
                decreases ord.len() - k,
            {
                sorted.push(&methods[ord[k]]);
                k += 1;
            }
            let ghost iord = ord@.map_values(|i: usize| i as int);
            assert(is_topological_order(methods@, iord));
            proof {
                lemma_topological_order_excludes_cycle(methods@, iord);
            }
            Some(sorted)
        },
    }
}

/// The order in which `toposort` lists the methods, as indices into `methods`.
pub fn toposort_indices<M>(methods: &[M], n_variables: usize) -> (r: Option<Vec<usize>>) where
    M: Vertex,

    requires
        indices_below(methods@, n_variables as nat),
    ensures
        r matches Some(ord) ==> is_topological_order(methods@, ord@.map_values(|i: usize| i as int)),
        r is None ==> has_dataflow_cycle(methods@),
{
    let n_methods = methods.len();
    let adj = adjacency(methods, n_variables);
    let ghost adjv = adj_view(adj@);

    let mut marked: Vec<bool> = Vec::new();
    let mut visiting: Vec<bool> = Vec::new();
    let mut i: usize = 0;
    while i < n_methods
        invariant
            i <= n_methods,
            marked@.len() == i,
            visiting@.len() == i,
            forall|j: int| 0 <= j < i ==> !#[trigger] marked@[j],
            forall|j: int| 0 <= j < i ==> !#[trigger] visiting@[j],
        decreases n_methods - i,
    {
        marked.push(false);
        visiting.push(false);
        i += 1;
    }
    let mut order: Vec<usize> = Vec::new();

    let mut start: usize = 0;
    while start < n_methods
        invariant
            adjv == adj_view(adj@),
            adjv.len() == n_methods,
            dfs_inv(adjv, marked@, visiting@, order@, Seq::empty()),
            forall|x: int| 0 <= x < n_methods ==> !#[trigger] visiting@[x],
            forall|x: int| 0 <= x < start ==> #[trigger] marked@[x],
            start <= n_methods,
            forall|u: int, v: int| #[trigger] adj_edge(adjv, u, v) <==> dataflow_edge(methods@, u, v),
        decreases n_methods - start,
    {
        let ghost m_before = marked@;
        if !marked[start] {
            match dfs(start, adj.as_slice(), &mut marked, &mut visiting, &mut order, Ghost(Seq::empty())) {
                None => {
                    proof {
                        lemma_adj_cycle_is_dataflow_cycle(methods@, adjv);
                    }
                    return None;
                },
                Some(()) => {},
            }
        }
        assert forall|x: int| 0 <= x < start + 1 implies #[trigger] marked@[x] by {
            if x < start {
                assert(m_before[x]);
            }
        }
        start += 1;
    }

    // every node is finished, so `order` lists each node exactly once
    let ghost iorder = order@.map_values(|i: usize| i as int);
    proof {
        let s = order@.to_set();
        order@.unique_seq_to_set();
        let r = Set::new(|x: usize| x < n_methods);
        assert forall|x: usize| r.contains(x) implies s.contains(x) by {
            assert(marked@[x as int] && !visiting@[x as int]);
        }
        assert(s =~= r);
        lemma_usize_range_len(n_methods);
    }

    let mut sorted: Vec<usize> = Vec::new();
    let mut k: usize = order.len();
    while k > 0
        invariant
            k <= order.len(),
            sorted@.len() == order.len() - k,
            forall|j: int| 0 <= j < sorted@.len() ==> #[trigger] sorted@[j] == order@[order.len() - 1 - j],
        decreases k,
    {
        k -= 1;
        sorted.push(order[k]);
    }
    proof {
        let ord = sorted@.map_values(|i: usize| i as int);
        assert forall|a: int, b: int| 0 <= a < b < ord.len() implies ord[a] != ord[b] by {
            assert(order@[order.len() - 1 - a] != order@[order.len() - 1 - b]);
        }
        assert forall|a: int, b: int| 0 <= a < b < ord.len() implies !dataflow_edge(
            methods@,
            #[trigger] ord[b],
            #[trigger] ord[a],
        ) by {
            let ia = order.len() - 1 - a;
            let ib = order.len() - 1 - b;
            assert(ib < ia);
            assert(!adj_edge(adjv, order@[ib] as int, order@[ia] as int));
        }
    }
    Some(sorted)
}

proof fn lemma_usize_range_len(n: usize)
    ensures
        Set::new(|x: usize| x < n).finite(),
        Set::new(|x: usize| x < n).len() == n,
    decreases n,
{
    let s = Set::new(|x: usize| x < n);
    if n == 0 {
        assert(s =~= Set::empty());
    } else {
        let m = (n - 1) as usize;
        lemma_usize_range_len(m);
        assert(s =~= Set::new(|x: usize| x < m).insert(m));
    }
}

proof fn lemma_adj_cycle_is_dataflow_cycle<M: Vertex>(ms: Seq<M>, adj: Seq<Seq<usize>>)
    requires
        forall|u: int, v: int| #[trigger] adj_edge(adj, u, v) <==> dataflow_edge(ms, u, v),
        exists|p: Seq<int>| is_adj_cycle(adj, p),
    ensures
        has_dataflow_cycle(ms),
{
    let p = choose|p: Seq<int>| is_adj_cycle(adj, p);
    assert forall|k: int| 0 <= k < p.len() - 1 implies #[trigger] dataflow_edge(ms, p[k], p[k + 1]) by {
        assert(adj_edge(adj, p[k], p[k + 1]));
    }
    assert(is_dataflow_cycle(ms, p));
}

/// Builds the dataflow graph of `methods`: an edge from each method to every other method
/// that reads one of its outputs.
fn adjacency<M>(methods: &[M], n_variables: usize) -> (adj: Vec<Vec<usize>>) where M: Vertex
    requires
        indices_below(methods@, n_variables as nat),
    ensures
        adj@.len() == methods@.len(),
        adj_wf(adj_view(adj@)),
        forall|u: int, v: int| #[trigger]
            adj_edge(adj_view(adj@), u, v) <==> dataflow_edge(methods@, u, v),
{
    let n_methods = methods.len();
    // Create adjacency list to go from a variable to methods using it as input
    let mut var_to_methods: Vec<Vec<usize>> = Vec::new();
    let mut v: usize = 0;
    while v < n_variables
        invariant
            v <= n_variables,
            var_to_methods@.len() == v,
            forall|j: int| 0 <= j < v ==> (#[trigger] var_to_methods@[j])@.len() == 0,
        decreases n_variables - v,
    {
        var_to_methods.push(Vec::new());
        v += 1;
    }
    let mut m_id: usize = 0;
    while m_id < n_methods
        invariant
            m_id <= n_methods,
            n_methods == methods@.len(),
            indices_below(methods@, n_variables as nat),
            var_to_methods@.len() == n_variables,
            forall|x: int, k: int|
                0 <= x < n_variables && 0 <= k < var_to_methods@[x]@.len() ==> #[trigger] var_to_methods@[x]@[k]
                    < m_id,
            forall|x: int, m: int|
                0 <= x < n_variables && 0 <= m < m_id ==> (#[trigger] var_to_methods@[x]@.contains(
                    m as usize,
                ) <==> methods@[m].input_vars().contains(x as usize)),
        decreases n_methods - m_id,
    {
        let inputs = methods[m_id].inputs();
        let mut k: usize = 0;
        while k < inputs.len()
            invariant
                m_id < n_methods,
                n_methods == methods@.len(),
                indices_below(methods@, n_variables as nat),
                inputs@ == methods@[m_id as int].input_vars(),
                k <= inputs@.len(),
                var_to_methods@.len() == n_variables,
                forall|x: int, j: int|
                    0 <= x < n_variables && 0 <= j < var_to_methods@[x]@.len()
                        ==> #[trigger] var_to_methods@[x]@[j] <= m_id,
                forall|x: int, m: int|
                    0 <= x < n_variables && 0 <= m < m_id ==> (#[trigger] var_to_methods@[x]@.contains(
                        m as usize,
                    ) <==> methods@[m].input_vars().contains(x as usize)),
                forall|x: int|
                    0 <= x < n_variables ==> (#[trigger] var_to_methods@[x]@.contains(m_id)
                        <==> inputs@.subrange(0, k as int).contains(x as usize)),
            decreases inputs@.len() - k,
        {
            let var_id = inputs[k];
            assert(methods@[m_id as int].input_vars()[k as int] < n_variables);
            let ghost before = var_to_methods@;
            var_to_methods[var_id].push(m_id);
            proof {
                assert forall|x: int| 0 <= x < n_variables implies (#[trigger] var_to_methods@[x]@.contains(m_id)
                    <==> inputs@.subrange(0, k + 1).contains(x as usize)) by {
                    assert(inputs@.subrange(0, k + 1) =~= inputs@.subrange(0, k as int).push(var_id));
                    if x == var_id {
                        assert(var_to_methods@[x]@.last() == m_id);
                    } else {
                        assert(var_to_methods@[x] == before[x]);
                    }
                }
                assert forall|x: int, m: int|
                    0 <= x < n_variables && 0 <= m < m_id implies (#[trigger] var_to_methods@[x]@.contains(
                        m as usize,
                    ) <==> methods@[m].input_vars().contains(x as usize)) by {
                    if x == var_id {
                        assert(var_to_methods@[x]@ =~= before[x]@.push(m_id));
                        if before[x]@.contains(m as usize) {
                            let j = choose|j: int| 0 <= j < before[x]@.len() && before[x]@[j] == m as usize;
                            assert(var_to_methods@[x]@[j] == m as usize);
                        }
                    }
                }
            }
            k += 1;
        }
        assert(inputs@.subrange(0, inputs@.len() as int) =~= inputs@);
        m_id += 1;
    }

    // Create an adjacency list to represent the method graph
    let mut method_to_methods: Vec<Vec<usize>> = Vec::new();
    let mut m_id: usize = 0;
    while m_id < n_methods
        invariant
            m_id <= n_methods,
            n_methods == methods@.len(),
            indices_below(methods@, n_variables as nat),
            var_to_methods@.len() == n_variables,
            forall|x: int, k: int|
                0 <= x < n_variables && 0 <= k < var_to_methods@[x]@.len() ==> #[trigger] var_to_methods@[x]@[k]
                    < n_methods,
            forall|x: int, m: int|
                0 <= x < n_variables && 0 <= m < n_methods ==> (#[trigger] var_to_methods@[x]@.contains(
                    m as usize,
                ) <==> methods@[m].input_vars().contains(x as usize)),
            method_to_methods@.len() == m_id,
            forall|u: int, k: int|
                0 <= u < m_id && 0 <= k < method_to_methods@[u]@.len() ==> #[trigger] method_to_methods@[u]@[k]
                    < n_methods && method_to_methods@[u]@[k] != u,
            forall|u: int, v: int|
                0 <= u < m_id && 0 <= v < n_methods ==> (#[trigger] method_to_methods@[u]@.contains(v as usize)
                    <==> dataflow_edge(methods@, u, v)),
        decreases n_methods - m_id,
    {
        let outputs = methods[m_id].outputs();
        let mut targets: Vec<usize> = Vec::new();
        let mut k: usize = 0;
        while k < outputs.len()
            invariant
                m_id < n_methods,
                n_methods == methods@.len(),
                indices_below(methods@, n_variables as nat),
                outputs@ == methods@[m_id as int].output_vars(),
                k <= outputs@.len(),
                var_to_methods@.len() == n_variables,
                forall|x: int, j: int|
                    0 <= x < n_variables && 0 <= j < var_to_methods@[x]@.len()
                        ==> #[trigger] var_to_methods@[x]@[j] < n_methods,
                forall|x: int, m: int|
                    0 <= x < n_variables && 0 <= m < n_methods ==> (#[trigger] var_to_methods@[x]@.contains(
                        m as usize,
                    ) <==> methods@[m].input_vars().contains(x as usize)),
                forall|j: int| 0 <= j < targets@.len() ==> #[trigger] targets@[j] < n_methods && targets@[j] != m_id,
                forall|v: int|
                    0 <= v < n_methods ==> (#[trigger] targets@.contains(v as usize) <==> (v != m_id
                        && exists|j: int|
                        0 <= j < k && methods@[v].input_vars().contains(#[trigger] outputs@[j]))),
            decreases outputs@.len() - k,
        {
            let out_var = outputs[k];
            assert(methods@[m_id as int].output_vars()[k as int] < n_variables);
            let readers = &var_to_methods[out_var];
            let mut j: usize = 0;
            let ghost before = targets@;
            while j < readers.len()
                invariant
                    m_id < n_methods,
                    readers@ == var_to_methods@[out_var as int]@,
                    j <= readers@.len(),
                    forall|i: int| 0 <= i < readers@.len() ==> #[trigger] readers@[i] < n_methods,
                    forall|i: int| 0 <= i < targets@.len() ==> #[trigger] targets@[i] < n_methods && targets@[i] != m_id,
                    before.len() <= targets@.len(),
                    targets@.subrange(0, before.len() as int) == before,
                    forall|v: usize| #[trigger] targets@.contains(v) <==> (before.contains(v) || (v != m_id
                        && readers@.subrange(0, j as int).contains(v))),
                decreases readers@.len() - j,
            {
                let m_target = readers[j];
                // But ignore self-loops
                if m_target != m_id {
                    targets.push(m_target);
                }
                proof {
                    assert(readers@.subrange(0, j + 1) =~= readers@.subrange(0, j as int).push(m_target));
                    assert forall|v: usize| #[trigger] targets@.contains(v) <==> (before.contains(v) || (v != m_id
                        && readers@.subrange(0, j + 1).contains(v))) by {
                        if before.contains(v) {
                            let i = choose|i: int| 0 <= i < before.len() && before[i] == v;
                            assert(targets@[i] == v);
                        }
                    }
                }
                j += 1;
            }
            proof {
                assert(readers@.subrange(0, readers@.len() as int) =~= readers@);
                assert forall|v: int|
                    0 <= v < n_methods implies (#[trigger] targets@.contains(v as usize) <==> (v != m_id
                        && exists|i: int|
                        0 <= i < k + 1 && methods@[v].input_vars().contains(#[trigger] outputs@[i]))) by {
                    if v != m_id && methods@[v].input_vars().contains(outputs@[k as int]) {
                        assert(var_to_methods@[out_var as int]@.contains(v as usize));
                    }
                    if v != m_id && exists|i: int|
                        0 <= i < k + 1 && methods@[v].input_vars().contains(#[trigger] outputs@[i]) {
                        let i = choose|i: int|
                            0 <= i < k + 1 && methods@[v].input_vars().contains(#[trigger] outputs@[i]);
                        if i == k {
                            assert(var_to_methods@[out_var as int]@.contains(v as usize));
                        }
                    }
                }
            }
            k += 1;
        }
        proof {
            assert forall|v: int| 0 <= v < n_methods implies (#[trigger] targets@.contains(v as usize) <==> dataflow_edge(
                methods@,
                m_id as int,
                v,
            )) by {
                if dataflow_edge(methods@, m_id as int, v) {
                    let j = choose|j: int|
                        0 <= j < outputs@.len() && methods@[v].input_vars().contains(
                            #[trigger] outputs@[j],
                        );
                }
            }
        }
        method_to_methods.push(targets);
        proof {
            assert forall|u: int, v: int|
                0 <= u < m_id + 1 && 0 <= v < n_methods implies (#[trigger] method_to_methods@[u]@.contains(v as usize)
                <==> dataflow_edge(methods@, u, v)) by {}
        }
        m_id += 1;
    }
    proof {
        let adjv = adj_view(method_to_methods@);
        assert forall|u: int, v: int| #[trigger] adj_edge(adjv, u, v) <==> dataflow_edge(methods@, u, v) by {
            if 0 <= u < n_methods && 0 <= v < n_methods {
                assert(adjv[u] == method_to_methods@[u]@);
            }
        }
    }
    method_to_methods
}

/// Dfs through an adjacency list and store post-numbers.
fn dfs(
    start: usize,
    adjacency_list: &[Vec<usize>],
    marked: &mut Vec<bool>,
    visiting: &mut Vec<bool>,
    order: &mut Vec<usize>,
    Ghost(path): Ghost<Seq<int>>,
) -> (r: Option<()>)
    requires
        dfs_inv(
            adj_view(adjacency_list@),
            old(marked)@,
            old(visiting)@,
            old(order)@,
            path,
        ),
        start < adjacency_list@.len(),
        path.len() > 0 ==> adj_edge(
            adj_view(adjacency_list@),
            path.last(),
            start as int,
        ),
    ensures
        r is Some ==> {
            &&& dfs_inv(
                adj_view(adjacency_list@),
                final(marked)@,
                final(visiting)@,
                final(order)@,
                path,
            )
            &&& final(visiting)@ == old(visiting)@
            &&& forall|x: int| 0 <= x < old(marked)@.len() && #[trigger] old(marked)@[x] ==> final(marked)@[x]
            &&& final(marked)@[start as int]
            &&& !final(visiting)@[start as int]
            &&& old(order)@.len() <= final(order)@.len()
            &&& final(order)@.subrange(0, old(order)@.len() as int) == old(order)@
        },
        r is None ==> exists|p: Seq<int>| is_adj_cycle(adj_view(adjacency_list@), p),
    decreases old(marked)@.len() - num_marked(old(marked)@),
{
    let ghost adj = adj_view(adjacency_list@);
    // Loop detected, we are already visiting this node
    if visiting[start] {
        proof {
            let k = path.index_of(start as int);
            let c = path.subrange(k, path.len() as int).push(start as int);
            assert forall|j: int| 0 <= j < c.len() - 1 implies #[trigger] adj_edge(adj, c[j], c[j + 1]) by {
                if j < c.len() - 2 {
                    assert(adj_edge(adj, path[k + j], path[k + j + 1]));
                }
            }
            assert(is_adj_cycle(adj, c));
        }
        return None;
    }
    // Reached part of graph that is already done, just return
    if marked[start] {
        return Some(());
    }

    let ghost marked0 = marked@;
    let ghost visiting0 = visiting@;
    let ghost order0 = order@;
    let ghost path1 = path.push(start as int);
    proof {
        lemma_num_marked_bounded(marked@);
    }
    marked.set(start, true);
    visiting.set(start, true);
    proof {
        assert forall|x: int| 0 <= x < adj.len() implies (#[trigger] visiting@[x] <==> path1.contains(x)) by {
            if x == start {
                assert(path1[path.len() as int] == x);
            } else if path1.contains(x) {
                let j = choose|j: int| 0 <= j < path1.len() && path1[j] == x;
                assert(path[j] == x);
            }
        }
        assert forall|k: int| 0 <= k < path1.len() - 1 implies #[trigger] adj_edge(adj, path1[k], path1[k + 1]) by {
            if k < path.len() - 1 {
                assert(adj_edge(adj, path[k], path[k + 1]));
            }
        }
    }
    let next_methods = &adjacency_list[start];
    let mut i: usize = 0;
    while i < next_methods.len()
        invariant
            adj == adj_view(adjacency_list@),
            path1 == path.push(start as int),
            marked0 == old(marked)@,
            next_methods@ == adj[start as int],
            start < adj.len(),
            i <= next_methods@.len(),
            dfs_inv(adj, marked@, visiting@, order@, path1),
            visiting@ == visiting0.update(start as int, true),
            !visiting0[start as int],
            !marked0[start as int],
            marked0.len() == marked@.len(),
            forall|x: int| 0 <= x < marked0.len() && #[trigger] marked0[x] ==> marked@[x],
            marked@[start as int],
            order0.len() <= order@.len(),
            order@.subrange(0, order0.len() as int) == order0,
            forall|k: int| 0 <= k < i ==> #[trigger] marked@[next_methods@[k] as int] && !visiting@[next_methods@[k] as int],
        decreases next_methods@.len() - i,
    {
        let m = next_methods[i];
        assert(adj[start as int][i as int] == m);
        assert(path1.last() == start as int);
        assert(adj_edge(adj, path1.last(), m as int));
        proof {
            lemma_num_marked_monotone(marked0, marked@, start as int);
            lemma_num_marked_bounded(marked@);
        }
        let ghost marked1 = marked@;
        let ghost order1 = order@;
        match dfs(m, adjacency_list, marked, visiting, order, Ghost(path1)) {
            None => {
                return None;
            },
            Some(()) => {},
        }
        proof {
            assert(order@.subrange(0, order0.len() as int) =~= order@.subrange(
                0,
                order1.len() as int,
            ).subrange(0, order0.len() as int));
            assert forall|k: int| 0 <= k < i + 1 implies #[trigger] marked@[next_methods@[k] as int]
                && !visiting@[next_methods@[k] as int] by {
                assert(adj[start as int][k] == next_methods@[k]);
                if k < i {
                    assert(marked1[next_methods@[k] as int]);
                }
            }
        }
        i += 1;
    }

    // We are done with `start`, push it and leave
    let ghost order2 = order@;
    let ghost visiting2 = visiting@;
    let ghost marked2 = marked@;
    order.push(start);
    visiting.set(start, false);
    proof {
        assert(visiting@ =~= visiting0);
        assert(!order2.contains(start));
        assert forall|x: int| 0 <= x < adj.len() implies (#[trigger] visiting@[x] <==> path.contains(x)) by {
            if x != start {
                if path1.contains(x) {
                    let j = choose|j: int| 0 <= j < path1.len() && path1[j] == x;
                    assert(path[j] == x);
                }
                if path.contains(x) {
                    let j = choose|j: int| 0 <= j < path.len() && path[j] == x;
                    assert(path1[j] == x);
                }
            }
        }
        assert forall|x: int|
            0 <= x < adj.len() implies (order@.contains(x as usize) <==> (#[trigger] marked@[x] && !visiting@[x])) by {
            if x != start {
                if order@.contains(x as usize) {
                    let j = choose|j: int| 0 <= j < order@.len() && order@[j] == x as usize;
                    assert(order2[j] == x);
                }
                if order2.contains(x as usize) {
                    let j = choose|j: int| 0 <= j < order2.len() && order2[j] == x as usize;
                    assert(order@[j] == x);
                }
            } else {
                assert(order@[order2.len() as int] == start);
            }
        }
        assert forall|a: int, b: int|
            0 <= a < b < order@.len() implies !adj_edge(adj, #[trigger] order@[a] as int, #[trigger] order@[b] as int) by {
            if b == order2.len() {
                let x = order2[a] as int;
                assert(order2.contains(x as usize));
                if adj_edge(adj, x, start as int) {
                    assert(marked2[x] && !visiting2[x]);
                }
            } else {
                assert(order@[a] == order2[a] && order@[b] == order2[b]);
            }
        }
        assert forall|x: int, y: int|
            #[trigger] adj_edge(adj, x, y) && marked@[x] && !visiting@[x] implies marked@[y] && !visiting@[y] by {
            if x == start {
                let k = choose|k: int| 0 <= k < adj[x].len() && adj[x][k] == y as usize;
                assert(next_methods@[k] == y);
            } else {
                assert(marked2[y] && !visiting2[y]);
                assert(adj[x][0] != x) by {
                    let k = choose|k: int| 0 <= k < adj[x].len() && adj[x][k] == y as usize;
                }
            }
        }
        assert(order@.subrange(0, order0.len() as int) =~= order2.subrange(0, order0.len() as int));
    }

    Some(())
}

} // verus!
