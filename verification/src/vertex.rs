//! Vertices of a dataflow graph: anything with input- and output-indices.
//!
//! A method reads from its inputs and writes to its outputs, so a method `a` must run
//! before a method `b` whenever `a` writes a variable that `b` reads.

use vstd::prelude::*;

verus! {

/// Represents a type with input- and output-indices.
/// This can be used to represent vertices in graphs.
pub trait Vertex {
    /// The input-indices of this vertex, as a mathematical sequence.
    spec fn input_vars(&self) -> Seq<usize>;

    /// The output-indices of this vertex, as a mathematical sequence.
    spec fn output_vars(&self) -> Seq<usize>;

    /// Whether this vertex reads from and writes to the same single index.
    spec fn stays(&self) -> bool;

    /// Returns the input-indices of this vertex.
    fn inputs(&self) -> (r: &[usize])
        ensures
            r@ == self.input_vars(),
    ;

    /// Returns the number of inputs of this vertex.
    fn n_inputs(&self) -> (r: usize)
        ensures
            r == self.input_vars().len(),
    {
        self.inputs().len()
    }

    /// Returns the outputs-indices of this vertex.
    fn outputs(&self) -> (r: &[usize])
        ensures
            r@ == self.output_vars(),
    ;

    /// Returns the number of outputs of this vertex.
    fn n_outputs(&self) -> (r: usize)
        ensures
            r == self.output_vars().len(),
    {
        self.outputs().len()
    }

    /// Returns true if the vertex reads from and writes to the same index.
    fn is_stay(&self) -> (r: bool)
        ensures
            r == self.stays(),
    ;
}

/// `a` writes some variable that `b` reads.
pub open spec fn feeds<M: Vertex>(a: M, b: M) -> bool {
    exists|k: int| 0 <= k < a.output_vars().len() && b.input_vars().contains(#[trigger] a.output_vars()[k])
}

/// There is a dataflow edge from vertex `i` to a different vertex `j` of `ms`.
pub open spec fn dataflow_edge<M: Vertex>(ms: Seq<M>, i: int, j: int) -> bool {
    &&& 0 <= i < ms.len()
    &&& 0 <= j < ms.len()
    &&& i != j
    &&& feeds(ms[i], ms[j])
}

/// `p` is a closed walk of length at least one along dataflow edges of `ms`.
pub open spec fn is_dataflow_cycle<M: Vertex>(ms: Seq<M>, p: Seq<int>) -> bool {
    &&& p.len() >= 2
    &&& p[0] == p.last()
    &&& forall|k: int| 0 <= k < p.len() - 1 ==> #[trigger] dataflow_edge(ms, p[k], p[k + 1])
}

/// The dataflow graph of `ms` has a cycle.
pub open spec fn has_dataflow_cycle<M: Vertex>(ms: Seq<M>) -> bool {
    exists|p: Seq<int>| is_dataflow_cycle(ms, p)
}

/// `ord` lists every index of `ms` exactly once.
pub open spec fn is_index_permutation(ord: Seq<int>, n: int) -> bool {
    &&& ord.len() == n
    &&& forall|k: int| 0 <= k < ord.len() ==> 0 <= #[trigger] ord[k] < n
    &&& forall|a: int, b: int| 0 <= a < b < ord.len() ==> ord[a] != ord[b]
}

/// `ord` is an order of all vertices of `ms` in which no dataflow edge points backwards.
pub open spec fn is_topological_order<M: Vertex>(ms: Seq<M>, ord: Seq<int>) -> bool {
    &&& is_index_permutation(ord, ms.len() as int)
    &&& forall|a: int, b: int|
        0 <= a < b < ord.len() ==> !dataflow_edge(ms, #[trigger] ord[b], #[trigger] ord[a])
}

/// Every variable index used by a vertex of `ms` is below `n`.
pub open spec fn indices_below<M: Vertex>(ms: Seq<M>, n: nat) -> bool {
    &&& forall|i: int, k: int|
        0 <= i < ms.len() && 0 <= k < ms[i].input_vars().len() ==> #[trigger] ms[i].input_vars()[k] < n
    &&& forall|i: int, k: int|
        0 <= i < ms.len() && 0 <= k < ms[i].output_vars().len() ==> #[trigger] ms[i].output_vars()[k] < n
}

/// A dataflow graph that can be listed in topological order has no cycle.
pub proof fn lemma_topological_order_excludes_cycle<M: Vertex>(ms: Seq<M>, ord: Seq<int>)
    requires
        is_topological_order(ms, ord),
    ensures
        !has_dataflow_cycle(ms),
{
    if has_dataflow_cycle(ms) {
        let p = choose|p: Seq<int>| is_dataflow_cycle(ms, p);
        // the position of every vertex in `ord`
        let pos = |v: int| choose|a: int| 0 <= a < ord.len() && ord[a] == v;
        assert forall|v: int| 0 <= v < ms.len() implies 0 <= #[trigger] pos(v) < ord.len() && ord[pos(v)] == v by {
            lemma_permutation_covers(ord, ms.len() as int, v);
        }
        // positions strictly increase along the walk
        assert forall|k: int| 0 <= k < p.len() - 1 implies pos(#[trigger] p[k]) < pos(p[k + 1]) by {
            assert(dataflow_edge(ms, p[k], p[k + 1]));
            let a = pos(p[k]);
            let b = pos(p[k + 1]);
            if b <= a {
                if b == a {
                    assert(p[k] == p[k + 1]);
                } else {
                    assert(!dataflow_edge(ms, ord[a], ord[b]));
                }
            }
        }
        lemma_increasing_walk(p, pos, p.len() - 1);
    }
}

proof fn lemma_increasing_walk(p: Seq<int>, pos: spec_fn(int) -> int, k: int)
    requires
        0 <= k < p.len(),
        forall|j: int| 0 <= j < p.len() - 1 ==> pos(#[trigger] p[j]) < pos(p[j + 1]),
    ensures
        k > 0 ==> pos(p[0]) < pos(p[k]),
    decreases k,
{
    if k > 1 {
        lemma_increasing_walk(p, pos, k - 1);
        assert(pos(p[k - 1]) < pos(p[k]));
    } else if k == 1 {
        assert(pos(p[0]) < pos(p[1]));
    }
}

/// A permutation of `0..n` contains every index of that range.
pub proof fn lemma_permutation_covers(ord: Seq<int>, n: int, v: int)
    requires
        is_index_permutation(ord, n),
        0 <= v < n,
    ensures
        exists|a: int| 0 <= a < ord.len() && ord[a] == v,
{
    let s = ord.to_set();
    assert(ord.no_duplicates());
    ord.unique_seq_to_set();
    let r = vstd::set_lib::set_int_range(0, n);
    vstd::set_lib::lemma_int_range(0, n);
    if !s.contains(v) {
        assert(s.subset_of(r.remove(v)));
        vstd::set_lib::lemma_len_subset(s, r.remove(v));
        assert(false);
    }
}

} // verus!
