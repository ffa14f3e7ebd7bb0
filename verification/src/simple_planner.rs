//! The simple planner: it repeatedly finds a variable that only one remaining constraint
//! references, enforces that constraint with a method that writes only such variables,
//! and removes the constraint, until every constraint is enforced.

use crate::constraint::{contains_index, lists_used_variables, used_by, Constraint, ConstraintView};
use crate::method::{Method, MethodView};
use crate::sorting::{is_stable_sort_by_second, lemma_stable_sort_first, sorted_by_second};
use crate::component::Component;
use crate::toposort::toposort;
use crate::vertex::{dataflow_edge, feeds, has_dataflow_cycle, indices_below, is_index_permutation, is_topological_order, lemma_topological_order_excludes_cycle, Vertex};
use std::collections::VecDeque;
use vstd::prelude::*;

verus! {

broadcast use vstd::seq_lib::group_seq_properties;

/// The views of a sequence of constraints.
pub open spec fn constraint_views<T: 'static>(cs: Seq<Constraint<T>>) -> Seq<ConstraintView> {
    cs.map_values(|c: Constraint<T>| c@)
}

/// Every constraint lists the variables its methods use, and all of them are below `n`.
pub open spec fn system_wf(n: nat, cs: Seq<ConstraintView>) -> bool {
    &&& forall|ci: int| 0 <= ci < cs.len() ==> lists_used_variables(#[trigger] cs[ci].variables, cs[ci].methods)
    &&& forall|ci: int, k: int|
        0 <= ci < cs.len() && 0 <= k < cs[ci].variables.len() ==> #[trigger] cs[ci].variables[k] < n
}

/// Adding a constraint whose variables are below `n` keeps a system well formed.
pub proof fn lemma_system_wf_push(n: nat, cs: Seq<ConstraintView>, c: ConstraintView)
    requires
        system_wf(n, cs),
        lists_used_variables(c.variables, c.methods),
        forall|x: usize| #[trigger] c.variables.contains(x) ==> x < n,
    ensures
        system_wf(n, cs.push(c)),
{
    let s = cs.push(c);
    assert forall|ci: int, k: int| 0 <= ci < s.len() && 0 <= k < s[ci].variables.len() implies #[trigger] s[ci].variables[k]
        < n by {
        if ci == cs.len() {
            assert(c.variables.contains(c.variables[k]));
        } else {
            assert(s[ci] == cs[ci]);
        }
    }
    assert forall|ci: int| 0 <= ci < s.len() implies lists_used_variables(#[trigger] s[ci].variables, s[ci].methods) by {
        if ci < cs.len() {
            assert(s[ci] == cs[ci]);
        }
    }
}

/// Replacing a constraint by one whose methods are among its methods keeps a system well formed.
pub proof fn lemma_system_wf_update(n: nat, cs: Seq<ConstraintView>, i: int, c: ConstraintView)
    requires
        system_wf(n, cs),
        0 <= i < cs.len(),
        lists_used_variables(c.variables, c.methods),
        forall|x: usize| used_by(c.methods, x) ==> used_by(cs[i].methods, x),
    ensures
        system_wf(n, cs.update(i, c)),
{
    let s = cs.update(i, c);
    assert(lists_used_variables(cs[i].variables, cs[i].methods));
    assert forall|ci: int, k: int| 0 <= ci < s.len() && 0 <= k < s[ci].variables.len() implies #[trigger] s[ci].variables[k]
        < n by {
        if ci == i {
            let x = c.variables[k];
            assert(c.variables.contains(x));
            assert(used_by(cs[i].methods, x));
            assert(cs[i].variables.contains(x));
            let j = choose|j: int| 0 <= j < cs[i].variables.len() && cs[i].variables[j] == x;
            assert(cs[i].variables[j] < n);
        } else {
            assert(s[ci] == cs[ci]);
        }
    }
    assert forall|ci: int| 0 <= ci < s.len() implies lists_used_variables(#[trigger] s[ci].variables, s[ci].methods) by {
        if ci != i {
            assert(s[ci] == cs[ci]);
        }
    }
}

/// Keeping some of the constraints of a well formed system keeps it well formed.
pub proof fn lemma_system_wf_filter(n: nat, cs: Seq<ConstraintView>, keep: spec_fn(ConstraintView) -> bool)
    requires
        system_wf(n, cs),
    ensures
        system_wf(n, cs.filter(keep)),
    decreases cs.len(),
{
    reveal_with_fuel(Seq::filter, 1);
    if cs.len() > 0 {
        let r = cs.drop_last();
        assert forall|ci: int| 0 <= ci < r.len() implies lists_used_variables(#[trigger] r[ci].variables, r[ci].methods) by {
            assert(r[ci] == cs[ci]);
        }
        assert forall|ci: int, k: int| 0 <= ci < r.len() && 0 <= k < r[ci].variables.len() implies #[trigger] r[ci].variables[k]
            < n by {
            assert(r[ci] == cs[ci]);
        }
        lemma_system_wf_filter(n, r, keep);
        if keep(cs.last()) {
            let c = cs.last();
            assert(lists_used_variables(cs[cs.len() - 1].variables, cs[cs.len() - 1].methods));
            assert forall|x: usize| #[trigger] c.variables.contains(x) implies x < n by {
                let k = choose|k: int| 0 <= k < c.variables.len() && c.variables[k] == x;
                assert(cs[cs.len() - 1].variables[k] < n);
            }
            lemma_system_wf_push(n, r.filter(keep), c);
        }
    }
}

/// The method that the plan entry `e` (a constraint index and a method index) selects.
pub open spec fn chosen(cs: Seq<ConstraintView>, e: (usize, usize)) -> MethodView {
    cs[e.0 as int].methods[e.1 as int]
}

/// The method selected by `e` writes `x`.
pub open spec fn writes(cs: Seq<ConstraintView>, e: (usize, usize), x: usize) -> bool {
    chosen(cs, e).outputs.contains(x)
}

/// Some entry of `plan` enforces constraint `ci`.
pub open spec fn enforced(plan: Seq<(usize, usize)>, ci: int) -> bool {
    exists|k: int| 0 <= k < plan.len() && (#[trigger] plan[k]).0 == ci
}

/// `plan` enforces distinct constraints of `cs`, each by one of its methods that writes at least
/// one variable, and no method writes a variable that a constraint enforced later references.
pub open spec fn is_partial_elimination(cs: Seq<ConstraintView>, plan: Seq<(usize, usize)>) -> bool {
    &&& forall|k: int|
        0 <= k < plan.len() ==> (#[trigger] plan[k]).0 < cs.len() && plan[k].1 < cs[plan[k].0 as int].methods.len()
            && chosen(cs, plan[k]).outputs.len() > 0
    &&& forall|a: int, b: int| 0 <= a < b < plan.len() ==> (#[trigger] plan[a]).0 != (#[trigger] plan[b]).0
    &&& forall|a: int, b: int, x: usize|
        0 <= a < b < plan.len() && #[trigger] writes(cs, plan[a], x) ==> !cs[(#[trigger] plan[b]).0 as int].variables.contains(x)
}

/// `plan` enforces every constraint of `cs` exactly once, in an order that the simple planner
/// can produce: read backwards, it is an order in which the selected methods can run.
pub open spec fn is_elimination_plan(cs: Seq<ConstraintView>, plan: Seq<(usize, usize)>) -> bool {
    &&& is_partial_elimination(cs, plan)
    &&& plan.len() == cs.len()
}

/// Method `m` of constraint `c` writes at least one variable, and no constraint other than `c`
/// that `plan` has not enforced references a variable it writes.
pub open spec fn free_now(cs: Seq<ConstraintView>, plan: Seq<(usize, usize)>, c: int, m: int) -> bool {
    &&& 0 <= m < cs[c].methods.len()
    &&& cs[c].methods[m].outputs.len() > 0
    &&& forall|j: int, d: int|
        0 <= j < cs[c].methods[m].outputs.len() && 0 <= d < cs.len() && d != c && !enforced(plan, d)
            ==> !(#[trigger] cs[d].variables).contains(#[trigger] cs[c].methods[m].outputs[j])
}

/// Entry `e` of a plan, chosen after `prefix`, selects a method of its constraint that can be
/// enforced then, and that writes some variable `x` with the fewest outputs among the methods of
/// its constraint that can be enforced then and write `x`, the first such among equals.
pub open spec fn fewest_outputs(cs: Seq<ConstraintView>, prefix: Seq<(usize, usize)>, e: (usize, usize)) -> bool {
    &&& free_now(cs, prefix, e.0 as int, e.1 as int)
    &&& exists|x: usize|
        #[trigger] writes(cs, e, x) && forall|m2: int|
            free_now(cs, prefix, e.0 as int, m2) && #[trigger] cs[e.0 as int].methods[m2].outputs.contains(x) ==> (
            cs[e.0 as int].methods[e.1 as int].outputs.len() < cs[e.0 as int].methods[m2].outputs.len() || (
            cs[e.0 as int].methods[e.1 as int].outputs.len() == cs[e.0 as int].methods[m2].outputs.len() && e.1 <= m2))
}

/// Each entry of `p` was chosen by [`fewest_outputs`] after the entries before it.
pub open spec fn fewest_each(cs: Seq<ConstraintView>, p: Seq<(usize, usize)>) -> bool {
    forall|k: int| 0 <= k < p.len() ==> fewest_outputs(cs, p.subrange(0, k), #[trigger] p[k])
}

/// A list without duplicates whose entries are exactly `c` has length one.
proof fn lemma_single_entry(s: Seq<usize>, c: usize)
    requires
        s.no_duplicates(),
        forall|x: usize| #[trigger] s.contains(x) <==> x == c,
    ensures
        s.len() == 1,
{
    assert(s.contains(c));
    let k = choose|k: int| 0 <= k < s.len() && s[k] == c;
    if s.len() > 1 {
        let other = if k == 0 { 1int } else { 0int };
        assert(s.contains(s[other]));
        assert(s[other] == c);
        assert(false);
    }
}

/// The constraint indices of the entries of `plan`.
pub open spec fn enforced_indices(plan: Seq<(usize, usize)>) -> Seq<int> {
    plan.map_values(|e: (usize, usize)| e.0 as int)
}

/// An elimination plan enforces every constraint.
pub proof fn lemma_elimination_plan_covers(cs: Seq<ConstraintView>, p: Seq<(usize, usize)>, c: int)
    requires
        is_elimination_plan(cs, p),
        0 <= c < cs.len(),
    ensures
        enforced(p, c),
{
    let s = enforced_indices(p);
    let n = cs.len() as int;
    assert(s.no_duplicates()) by {
        assert forall|a: int, b: int| 0 <= a < s.len() && 0 <= b < s.len() && a != b implies s[a] != s[b] by {
            if a < b {
                assert(p[a].0 != p[b].0);
            } else {
                assert(p[b].0 != p[a].0);
            }
        }
    }
    s.unique_seq_to_set();
    if !enforced(p, c) {
        let range = vstd::set_lib::set_int_range(0, n).remove(c);
        vstd::set_lib::lemma_int_range(0, n);
        assert(s.to_set().subset_of(range)) by {
            assert forall|x: int| s.to_set().contains(x) implies range.contains(x) by {
                let k = choose|k: int| 0 <= k < s.len() && s[k] == x;
                assert(p[k].0 < cs.len());
                if x == c {
                    assert(p[k].0 == c);
                    assert(enforced(p, c));
                }
            }
        }
        vstd::set_lib::lemma_len_subset(s.to_set(), range);
        assert(vstd::set_lib::set_int_range(0, n).contains(c));
        assert(false);
    }
}

/// A plan that enforces fewer constraints than there are leaves one of them unenforced.
proof fn lemma_some_unenforced(cs: Seq<ConstraintView>, plan: Seq<(usize, usize)>) -> (c: int)
    requires
        plan.len() < cs.len(),
    ensures
        0 <= c < cs.len(),
        !enforced(plan, c),
{
    let t = enforced_indices(plan);
    let n = cs.len() as int;
    t.lemma_cardinality_of_set();
    vstd::set_lib::lemma_int_range(0, n);
    if forall|c: int| 0 <= c < n ==> #[trigger] enforced(plan, c) {
        assert(vstd::set_lib::set_int_range(0, n).subset_of(t.to_set())) by {
            assert forall|x: int| vstd::set_lib::set_int_range(0, n).contains(x) implies t.to_set().contains(x) by {
                assert(enforced(plan, x));
                let k = choose|k: int| 0 <= k < plan.len() && (#[trigger] plan[k]).0 == x;
                assert(t[k] == x);
            }
        }
        vstd::set_lib::lemma_len_subset(vstd::set_lib::set_int_range(0, n), t.to_set());
        assert(false);
    }
    choose|c: int| 0 <= c < n && !enforced(plan, c)
}

/// The first entry of `p` whose constraint `plan` has not enforced, given that entry `k` is one.
proof fn lemma_first_unenforced(plan: Seq<(usize, usize)>, p: Seq<(usize, usize)>, k: int) -> (k0: int)
    requires
        0 <= k < p.len(),
        !enforced(plan, p[k].0 as int),
    ensures
        0 <= k0 <= k,
        !enforced(plan, p[k0].0 as int),
        forall|j: int| 0 <= j < k0 ==> enforced(plan, (#[trigger] p[j]).0 as int),
    decreases k,
{
    if exists|j: int| 0 <= j < k && !enforced(plan, (#[trigger] p[j]).0 as int) {
        let j = choose|j: int| 0 <= j < k && !enforced(plan, (#[trigger] p[j]).0 as int);
        lemma_first_unenforced(plan, p, j)
    } else {
        k
    }
}

/// While some constraint is not enforced, and an elimination plan exists, some constraint
/// not yet enforced has a method that writes only variables no other such constraint references.
pub proof fn lemma_elimination_continues(cs: Seq<ConstraintView>, plan: Seq<(usize, usize)>, p: Seq<(usize, usize)>) -> (cm: (
    int,
    int,
))
    requires
        plan.len() < cs.len(),
        is_elimination_plan(cs, p),
    ensures
        0 <= cm.0 < cs.len(),
        !enforced(plan, cm.0),
        free_now(cs, plan, cm.0, cm.1),
{
    let c0 = lemma_some_unenforced(cs, plan);
    lemma_elimination_plan_covers(cs, p, c0);
    let k = choose|k: int| 0 <= k < p.len() && (#[trigger] p[k]).0 == c0;
    let k0 = lemma_first_unenforced(plan, p, k);
    let c = p[k0].0 as int;
    let m = p[k0].1 as int;
    assert forall|j: int, d: int|
        0 <= j < cs[c].methods[m].outputs.len() && 0 <= d < cs.len() && d != c && !enforced(plan, d)
            implies !(#[trigger] cs[d].variables).contains(#[trigger] cs[c].methods[m].outputs[j]) by {
        lemma_elimination_plan_covers(cs, p, d);
        let jd = choose|jd: int| 0 <= jd < p.len() && (#[trigger] p[jd]).0 == d;
        if jd < k0 {
            assert(enforced(plan, p[jd].0 as int));
        }
        assert(jd > k0);
        let x = cs[c].methods[m].outputs[j];
        assert(writes(cs, p[k0], x));
    }
    (c, m)
}

/// A constraint of a well formed system references each variable that its selected method writes.
pub proof fn lemma_written_is_referenced(n: nat, cs: Seq<ConstraintView>, e: (usize, usize), x: usize)
    requires
        system_wf(n, cs),
        e.0 < cs.len(),
        e.1 < cs[e.0 as int].methods.len(),
        chosen(cs, e).outputs.contains(x),
    ensures
        cs[e.0 as int].variables.contains(x),
{
    assert(lists_used_variables(cs[e.0 as int].variables, cs[e.0 as int].methods));
    assert(cs[e.0 as int].methods[e.1 as int].outputs.contains(x));
    assert(used_by(cs[e.0 as int].methods, x));
}

/// A variable that a method of a constraint of a well formed system writes is below `n`.
proof fn lemma_output_below(n: nat, cs: Seq<ConstraintView>, c: int, m: int, x: usize)
    requires
        system_wf(n, cs),
        0 <= c < cs.len(),
        0 <= m < cs[c].methods.len(),
        cs[c].methods[m].outputs.contains(x),
    ensures
        x < n,
{
    assert(lists_used_variables(cs[c].variables, cs[c].methods));
    assert(used_by(cs[c].methods, x));
    assert(cs[c].variables.contains(x));
    let k = choose|k: int| 0 <= k < cs[c].variables.len() && cs[c].variables[k] == x;
    assert(cs[c].variables[k] < n);
}

/// An output of a method of a constraint not yet enforced that writes only variables no other
/// such constraint references is referenced by exactly that constraint among them.
proof fn lemma_free_output_single_ref(
    n: nat,
    cs: Seq<ConstraintView>,
    plan: Seq<(usize, usize)>,
    refs: Seq<usize>,
    c: int,
    m: int,
    j: int,
)
    requires
        system_wf(n, cs),
        cs.len() <= usize::MAX,
        0 <= c < cs.len(),
        !enforced(plan, c),
        free_now(cs, plan, c, m),
        0 <= j < cs[c].methods[m].outputs.len(),
        refs.no_duplicates(),
        forall|d: usize| #[trigger] refs.contains(d) <==> (d < cs.len() && !enforced(plan, d as int) && cs[d as int].variables.contains(
            cs[c].methods[m].outputs[j],
        )),
    ensures
        refs.len() == 1,
        refs.contains(c as usize),
{
    let x = cs[c].methods[m].outputs[j];
    assert(lists_used_variables(cs[c].variables, cs[c].methods));
    assert(cs[c].methods[m].outputs.contains(x));
    assert(used_by(cs[c].methods, x));
    assert(cs[c].variables.contains(x));
    assert forall|d: usize| #[trigger] refs.contains(d) <==> d == c as usize by {
        if refs.contains(d) && d != c as usize {
            assert(!cs[d as int].variables.contains(x));
        }
    }
    lemma_single_entry(refs, c as usize);
}

/// Keeps track of which constraints reference a variable.
#[derive(Debug, Clone, Default)]
pub struct VariableRefCounter {
    referencing_constraints: Vec<usize>,
}

impl View for VariableRefCounter {
    type V = Seq<usize>;

    closed spec fn view(&self) -> Seq<usize> {
        self.referencing_constraints@
    }
}

impl VariableRefCounter {
    /// Constructs a counter with no references.
    pub fn new() -> (r: Self)
        ensures
            r@ == Seq::<usize>::empty(),
    {
        VariableRefCounter { referencing_constraints: Vec::new() }
    }

    /// Returns true if exactly one constraint references the variable.
    pub fn is_free(&self) -> (r: bool)
        ensures
            r == (self@.len() == 1),
    {
        self.referencing_constraints.len() == 1
    }

    /// Adds a reference from constraint `index`.
    pub fn add_reference(&mut self, index: usize)
        ensures
            final(self)@ == old(self)@.push(index),
    {
        self.referencing_constraints.push(index);
    }

    /// Removes every reference from constraint `index`.
    pub fn remove_reference(&mut self, index: usize)
        ensures
            final(self)@ == old(self)@.filter(|c: usize| c != index),
            forall|c: usize| #[trigger] final(self)@.contains(c) <==> (old(self)@.contains(c) && c != index),
            old(self)@.no_duplicates() ==> final(self)@.no_duplicates(),
    {
        let ghost keep = |c: usize| c != index;
        let ghost old_refs = self@;
        let mut kept: Vec<usize> = Vec::new();
        let mut i: usize = 0;
        while i < self.referencing_constraints.len()
            invariant
                old_refs == self@,
                keep == (|c: usize| c != index),
                i <= old_refs.len(),
                kept@ == old_refs.subrange(0, i as int).filter(keep),
                forall|c: usize| #[trigger] kept@.contains(c) <==> (old_refs.subrange(0, i as int).contains(c) && c != index),
                old_refs.no_duplicates() ==> kept@.no_duplicates(),
            decreases old_refs.len() - i,
        {
            let c = self.referencing_constraints[i];
            proof {
                reveal_with_fuel(Seq::filter, 1);
                assert(old_refs.subrange(0, i + 1).drop_last() =~= old_refs.subrange(0, i as int));
                assert(old_refs.subrange(0, i + 1) =~= old_refs.subrange(0, i as int).push(c));
            }
            if c != index {
                proof {
                    if old_refs.no_duplicates() && kept@.contains(c) {
                        let j = choose|j: int| 0 <= j < i && old_refs[j] == c;
                        assert(old_refs[j] == old_refs[i as int]);
                    }
                }
                kept.push(c);
            }
            i += 1;
        }
        assert(old_refs.subrange(0, old_refs.len() as int) =~= old_refs);
        self.referencing_constraints = kept;
    }

    /// Returns the constraints that reference the variable.
    pub fn referencing_constraints(&self) -> (r: &[usize])
        ensures
            r@ == self@,
    {
        self.referencing_constraints.as_slice()
    }

    /// A copy of the list of constraints that reference the variable.
    pub(crate) fn references_vec(&self) -> (r: Vec<usize>)
        ensures
            r@ == self@,
    {
        self.referencing_constraints.clone()
    }

    /// For each variable, the constraints that reference it.
    pub(crate) fn count_variable_refs<T: 'static>(n_variables: usize, constraints: &[Constraint<T>]) -> (r: Vec<Self>)
        requires
            system_wf(n_variables as nat, constraint_views(constraints@)),
        ensures
            r@.len() == n_variables,
            forall|v: int| 0 <= v < n_variables ==> (#[trigger] r@[v])@.no_duplicates(),
            forall|v: int, c: usize|
                0 <= v < n_variables ==> (#[trigger] r@[v]@.contains(c) <==> (c < constraints@.len()
                    && constraint_views(constraints@)[c as int].variables.contains(v as usize))),
    {
        let ghost cs = constraint_views(constraints@);
        let mut variables: Vec<VariableRefCounter> = Vec::new();
        let mut v: usize = 0;
        while v < n_variables
            invariant
                v <= n_variables,
                variables@.len() == v,
                forall|j: int| 0 <= j < v ==> (#[trigger] variables@[j])@ == Seq::<usize>::empty(),
            decreases n_variables - v,
        {
            variables.push(VariableRefCounter::new());
            v += 1;
        }
        let mut ci: usize = 0;
        while ci < constraints.len()
            invariant
                cs == constraint_views(constraints@),
                system_wf(n_variables as nat, cs),
                ci <= constraints@.len(),
                variables@.len() == n_variables,
                forall|v: int| 0 <= v < n_variables ==> (#[trigger] variables@[v])@.no_duplicates(),
                forall|v: int, c: usize|
                    0 <= v < n_variables ==> (#[trigger] variables@[v]@.contains(c) <==> (c < ci
                        && cs[c as int].variables.contains(v as usize))),
            decreases constraints@.len() - ci,
        {
            let vars = constraints[ci].variables();
            assert(vars@ == cs[ci as int].variables);
            let mut k: usize = 0;
            while k < vars.len()
                invariant
                    cs == constraint_views(constraints@),
                    system_wf(n_variables as nat, cs),
                    ci < constraints@.len(),
                    vars@ == cs[ci as int].variables,
                    k <= vars@.len(),
                    variables@.len() == n_variables,
                    forall|v: int| 0 <= v < n_variables ==> (#[trigger] variables@[v])@.no_duplicates(),
                    forall|v: int, c: usize|
                        0 <= v < n_variables ==> (#[trigger] variables@[v]@.contains(c) <==> ((c < ci
                            && cs[c as int].variables.contains(v as usize)) || (c == ci
                            && vars@.subrange(0, k as int).contains(v as usize)))),
                decreases vars@.len() - k,
            {
                let var_id = vars[k];
                assert(cs[ci as int].variables[k as int] < n_variables);
                let ghost before = variables@;
                proof {
                    assert(lists_used_variables(cs[ci as int].variables, cs[ci as int].methods));
                    if before[var_id as int]@.contains(ci) {
                        assert(vars@.subrange(0, k as int).contains(var_id));
                        let j = choose|j: int| 0 <= j < k && vars@[j] == var_id;
                        assert(vars@[j] == vars@[k as int]);
                    }
                }
                variables[var_id].add_reference(ci);
                proof {
                    assert(vars@.subrange(0, k + 1) =~= vars@.subrange(0, k as int).push(var_id));
                    assert forall|v: int, c: usize|
                        0 <= v < n_variables implies (#[trigger] variables@[v]@.contains(c) <==> ((c < ci
                            && cs[c as int].variables.contains(v as usize)) || (c == ci
                            && vars@.subrange(0, k + 1).contains(v as usize)))) by {
                        if v != var_id {
                            assert(variables@[v] == before[v]);
                        }
                    }
                }
                k += 1;
            }
            proof {
                assert(vars@.subrange(0, vars@.len() as int) =~= vars@);
            }
            ci += 1;
        }
        variables
    }
}

/// Whether exactly one remaining constraint references each of `outputs`.
fn all_free(variables: &[VariableRefCounter], outputs: &[usize]) -> (r: bool)
    requires
        forall|k: int| 0 <= k < outputs@.len() ==> #[trigger] outputs@[k] < variables@.len(),
    ensures
        r == forall|k: int| 0 <= k < outputs@.len() ==> (#[trigger] variables@[outputs@[k] as int])@.len() == 1,
{
    let mut k: usize = 0;
    while k < outputs.len()
        invariant
            forall|j: int| 0 <= j < outputs@.len() ==> #[trigger] outputs@[j] < variables@.len(),
            k <= outputs@.len(),
            forall|j: int| 0 <= j < k ==> (#[trigger] variables@[outputs@[j] as int])@.len() == 1,
        decreases outputs@.len() - k,
    {
        if !variables[outputs[k]].is_free() {
            return false;
        }
        k += 1;
    }
    true
}

/// Runs the simple planner on the constraints, returning for each enforced constraint its index
/// and the index of the method that enforces it, in the order they were enforced; `None` exactly
/// when no elimination plan exists.
pub fn simple_plan_indices<T: 'static>(n_variables: usize, constraints: &[Constraint<T>]) -> (r: Option<
    Vec<(usize, usize)>,
>)
    requires
        system_wf(n_variables as nat, constraint_views(constraints@)),
    ensures
        r matches Some(plan) ==> is_elimination_plan(constraint_views(constraints@), plan@),
        r matches Some(plan) ==> forall|k: int|
            0 <= k < plan@.len() ==> fewest_outputs(constraint_views(constraints@), plan@.subrange(0, k), #[trigger] plan@[k]),
        r is None ==> forall|p: Seq<(usize, usize)>| !#[trigger] is_elimination_plan(constraint_views(constraints@), p),
{
    let ghost cs = constraint_views(constraints@);
    let n_constraints = constraints.len();
    let mut plan: Vec<(usize, usize)> = Vec::new();
    let mut remaining_constraints = n_constraints;

    // Find the total use-count for each variable (n where n number of constraints)
    let mut variables = VariableRefCounter::count_variable_refs(n_variables, constraints);

    // Add initial interesting variables
    let mut potentially_free_variables: VecDeque<usize> = VecDeque::new();
    let mut idx: usize = 0;
    while idx < n_variables
        invariant
            idx <= n_variables,
            variables@.len() == n_variables,
            forall|k: int| 0 <= k < potentially_free_variables@.len() ==> #[trigger] potentially_free_variables@[k]
                < n_variables,
            forall|v: int|
                0 <= v < idx && (#[trigger] variables@[v])@.len() == 1 ==> potentially_free_variables@.contains(v as usize),
        decreases n_variables - idx,
    {
        if variables[idx].is_free() {
            let ghost before = potentially_free_variables@;
            potentially_free_variables.push_back(idx);
            proof {
                assert forall|v: int| 0 <= v < idx && (#[trigger] variables@[v])@.len() == 1 implies potentially_free_variables@.contains(v as usize) by {
                    let k = choose|k: int| 0 <= k < before.len() && before[k] == v as usize;
                    assert(potentially_free_variables@[k] == before[k]);
                }
                assert(potentially_free_variables@[before.len() as int] == idx);
            }
        }
        idx += 1;
    }
    proof {
        assert forall|c: int, m: int|
            0 <= c < n_constraints && !enforced(plan@, c) && #[trigger] free_now(cs, plan@, c, m) implies exists|k: int|
                0 <= k < potentially_free_variables@.len() && cs[c].methods[m].outputs.contains(
                    #[trigger] potentially_free_variables@[k],
                ) by {
            let x = cs[c].methods[m].outputs[0];
            lemma_output_below(n_variables as nat, cs, c, m, x);
            lemma_free_output_single_ref(n_variables as nat, cs, plan@, variables@[x as int]@, c, m, 0);
            assert(potentially_free_variables@.contains(x));
            let k = choose|k: int| 0 <= k < potentially_free_variables@.len() && potentially_free_variables@[k] == x;
            assert(cs[c].methods[m].outputs.contains(potentially_free_variables@[k]));
        }
    }

    while remaining_constraints != 0
        invariant
            cs == constraint_views(constraints@),
            n_constraints == constraints@.len(),
            system_wf(n_variables as nat, cs),
            variables@.len() == n_variables,
            forall|v: int| 0 <= v < n_variables ==> (#[trigger] variables@[v])@.no_duplicates(),
            forall|v: int, c: usize|
                0 <= v < n_variables ==> (#[trigger] variables@[v]@.contains(c) <==> (c < n_constraints
                    && !enforced(plan@, c as int) && cs[c as int].variables.contains(v as usize))),
            forall|k: int| 0 <= k < potentially_free_variables@.len() ==> #[trigger] potentially_free_variables@[k]
                < n_variables,
            is_partial_elimination(cs, plan@),
            forall|k: int, c: int, x: usize|
                0 <= k < plan@.len() && 0 <= c < n_constraints && !enforced(plan@, c) && #[trigger] writes(
                    cs,
                    plan@[k],
                    x,
                ) ==> !(#[trigger] cs[c].variables).contains(x),
            remaining_constraints + plan@.len() == n_constraints,
            forall|c: int, m: int|
                0 <= c < n_constraints && !enforced(plan@, c) && #[trigger] free_now(cs, plan@, c, m) ==> exists|k: int|
                    0 <= k < potentially_free_variables@.len() && cs[c].methods[m].outputs.contains(
                        #[trigger] potentially_free_variables@[k],
                    ),
            forall|k: int| 0 <= k < plan@.len() ==> fewest_outputs(cs, plan@.subrange(0, k), #[trigger] plan@[k]),
        decreases remaining_constraints, potentially_free_variables@.len(),
    {
        let ghost queue0 = potentially_free_variables@;
        // Pick the first current interesting variable
        let idx = match potentially_free_variables.pop_front() {
            Some(idx) => idx,
            None => {
                proof {
                    if exists|p: Seq<(usize, usize)>| #[trigger] is_elimination_plan(cs, p) {
                        let p = choose|p: Seq<(usize, usize)>| #[trigger] is_elimination_plan(cs, p);
                        let cm = lemma_elimination_continues(cs, plan@, p);
                        assert(free_now(cs, plan@, cm.0, cm.1));
                        assert(false);
                    }
                }
                return None;
            },
        };
        let ghost tail = potentially_free_variables@;
        assert(tail =~= queue0.subrange(1, queue0.len() as int));
        // A method with free outputs that writes `idx` shows that `idx` is free.
        proof {
            assert(idx < n_variables);
            assert forall|c: int, m: int|
                0 <= c < n_constraints && !enforced(plan@, c) && #[trigger] free_now(cs, plan@, c, m)
                    && cs[c].methods[m].outputs.contains(idx) implies variables@[idx as int]@.len() == 1
                    && variables@[idx as int]@.contains(c as usize) by {
                let j = choose|j: int| 0 <= j < cs[c].methods[m].outputs.len() && cs[c].methods[m].outputs[j] == idx;
                lemma_free_output_single_ref(n_variables as nat, cs, plan@, variables@[idx as int]@, c, m, j);
            }
        }

        // May have become uninteresting since we added it.
        if !variables[idx].is_free() {
            proof {
                assert forall|c: int, m: int|
                    0 <= c < n_constraints && !enforced(plan@, c) && #[trigger] free_now(cs, plan@, c, m) implies exists|k: int|
                        0 <= k < potentially_free_variables@.len() && cs[c].methods[m].outputs.contains(
                            #[trigger] potentially_free_variables@[k],
                        ) by {
                    let k = choose|k: int| 0 <= k < queue0.len() && cs[c].methods[m].outputs.contains(#[trigger] queue0[k]);
                    if k == 0 {
                        assert(cs[c].methods[m].outputs.contains(idx));
                    }
                    assert(potentially_free_variables@[k - 1] == queue0[k]);
                }
            }
            continue;
        }

        // The only constraint that references this variable
        let ci = variables[idx].referencing_constraints()[0];
        assert(variables@[idx as int]@.contains(ci));
        let constraint = &constraints[ci];
        let methods = constraint.methods();
        assert(cs[ci as int] == constraint@);
        proof {
            assert(lists_used_variables(cs[ci as int].variables, cs[ci as int].methods));
        }

        // Find all methods that write to this variable and only to free variables.
        let mut candidates: Vec<(usize, usize)> = Vec::new();
        let mut mi: usize = 0;
        while mi < methods.len()
            invariant
                cs == constraint_views(constraints@),
                system_wf(n_variables as nat, cs),
                ci < n_constraints,
                n_constraints == constraints@.len(),
                constraint@ == cs[ci as int],
                crate::constraint::method_views(methods@) == cs[ci as int].methods,
                variables@.len() == n_variables,
                mi <= methods@.len(),
                forall|j: int|
                    0 <= j < candidates@.len() ==> (#[trigger] candidates@[j]).0 < methods@.len()
                        && cs[ci as int].methods[candidates@[j].0 as int].outputs.contains(idx)
                        && forall|k: int|
                        0 <= k < cs[ci as int].methods[candidates@[j].0 as int].outputs.len()
                            ==> (#[trigger] variables@[cs[ci as int].methods[candidates@[j].0 as int].outputs[k] as int])@.len()
                            == 1,
                forall|j: int|
                    0 <= j < candidates@.len() ==> (#[trigger] candidates@[j]).1 == cs[ci as int].methods[candidates@[j].0 as int].outputs.len()
                        && candidates@[j].0 < mi,
                forall|a: int, b: int| 0 <= a < b < candidates@.len() ==> (#[trigger] candidates@[a]).0 < (#[trigger] candidates@[b]).0,
                forall|j: int|
                    #![trigger cs[ci as int].methods[j]]
                    0 <= j < mi && cs[ci as int].methods[j].outputs.contains(idx) && (forall|k: int|
                        0 <= k < cs[ci as int].methods[j].outputs.len()
                            ==> (#[trigger] variables@[cs[ci as int].methods[j].outputs[k] as int])@.len() == 1)
                        ==> exists|q: int| 0 <= q < candidates@.len() && (#[trigger] candidates@[q]).0 == j,
            decreases methods@.len() - mi,
        {
            let m = &methods[mi];
            let outputs = m.outputs();
            assert(cs[ci as int].methods[mi as int] == m@);
            proof {
                assert forall|k: int| 0 <= k < outputs@.len() implies #[trigger] outputs@[k] < variables@.len() by {
                    assert(cs[ci as int].methods[mi as int].outputs.contains(outputs@[k]));
                    assert(used_by(cs[ci as int].methods, outputs@[k]));
                    assert(cs[ci as int].variables.contains(outputs@[k]));
                    let j = choose|j: int| 0 <= j < cs[ci as int].variables.len() && cs[ci as int].variables[j] == outputs@[k];
                    assert(cs[ci as int].variables[j] < n_variables);
                }
            }
            if contains_index(outputs, idx) && all_free(variables.as_slice(), outputs) {
                let ghost before = candidates@;
                candidates.push((mi, outputs.len()));
                proof {
                    assert(candidates@[before.len() as int].0 == mi);
                    assert forall|j: int|
                        #![trigger cs[ci as int].methods[j]]
                        0 <= j < mi + 1 && cs[ci as int].methods[j].outputs.contains(idx) && (forall|k: int|
                            0 <= k < cs[ci as int].methods[j].outputs.len()
                                ==> (#[trigger] variables@[cs[ci as int].methods[j].outputs[k] as int])@.len() == 1)
                            implies exists|q: int| 0 <= q < candidates@.len() && (#[trigger] candidates@[q]).0 == j by {
                        if j < mi {
                            let q = choose|q: int| 0 <= q < before.len() && (#[trigger] before[q]).0 == j;
                            assert(candidates@[q] == before[q]);
                        }
                    }
                }
            }
            mi += 1;
        }

        // Sort them by their number of outputs, and take the first one
        let ghost unsorted = candidates@;
        let free_methods = sorted_by_second(candidates);
        if free_methods.len() > 0 {
            let mi = free_methods[0].0;
            let ghost e = (ci, mi);
            proof {
                let p = choose|p: Seq<int>| is_stable_sort_by_second(unsorted, free_methods@, p);
                let a = lemma_stable_sort_first(unsorted, free_methods@, p);
                assert(unsorted[a] == free_methods@[0]);
            }
            let ghost m = cs[ci as int].methods[mi as int];
            // the method writes only variables that no other remaining constraint references
            proof {
                assert forall|c: int, x: usize|
                    0 <= c < n_constraints && c != ci && !enforced(plan@, c) && writes(cs, e, x)
                        implies !cs[c].variables.contains(x) by {
                    let k = choose|k: int| 0 <= k < m.outputs.len() && m.outputs[k] == x;
                    assert(cs[ci as int].methods[mi as int].outputs.contains(x));
                    assert(used_by(cs[ci as int].methods, x));
                    assert(cs[ci as int].variables.contains(x));
                    let j = choose|j: int| 0 <= j < cs[ci as int].variables.len() && cs[ci as int].variables[j] == x;
                    assert(x < n_variables);
                    assert(variables@[x as int]@.len() == 1);
                    assert(variables@[x as int]@.contains(ci));
                    if cs[c].variables.contains(x) {
                        assert(variables@[x as int]@.contains(c as usize));
                        assert(false);
                    }
                }
            }

            // the method has the fewest outputs among those that can be chosen for `idx`, the first among equals
            proof {
                let p = choose|p: Seq<int>| is_stable_sort_by_second(unsorted, free_methods@, p);
                let a = lemma_stable_sort_first(unsorted, free_methods@, p);
                assert(unsorted[a] == free_methods@[0]);
                assert(free_now(cs, plan@, ci as int, mi as int)) by {
                    assert forall|j: int, d: int|
                        0 <= j < cs[ci as int].methods[mi as int].outputs.len() && 0 <= d < cs.len() && d != ci && !enforced(plan@, d)
                            implies !(#[trigger] cs[d].variables).contains(#[trigger] cs[ci as int].methods[mi as int].outputs[j]) by {
                        assert(writes(cs, e, cs[ci as int].methods[mi as int].outputs[j]));
                    }
                }
                assert(writes(cs, e, idx));
                assert forall|m2: int|
                    free_now(cs, plan@, ci as int, m2) && #[trigger] cs[ci as int].methods[m2].outputs.contains(idx) implies (
                    cs[ci as int].methods[mi as int].outputs.len() < cs[ci as int].methods[m2].outputs.len() || (
                    cs[ci as int].methods[mi as int].outputs.len() == cs[ci as int].methods[m2].outputs.len() && mi <= m2)) by {
                    assert forall|k: int| 0 <= k < cs[ci as int].methods[m2].outputs.len() implies (#[trigger] variables@[cs[ci as int].methods[m2].outputs[k] as int])@.len()
                        == 1 by {
                        let x = cs[ci as int].methods[m2].outputs[k];
                        assert(cs[ci as int].methods[m2].outputs.contains(x));
                        lemma_output_below(n_variables as nat, cs, ci as int, m2, x);
                        assert(variables@[x as int]@.no_duplicates());
                        lemma_free_output_single_ref(n_variables as nat, cs, plan@, variables@[x as int]@, ci as int, m2, k);
                    }
                    assert(cs[ci as int].methods[m2] == cs[ci as int].methods[m2]);
                    let q = choose|q: int| 0 <= q < unsorted.len() && (#[trigger] unsorted[q]).0 == m2;
                    assert(unsorted[a].1 <= unsorted[q].1);
                    if unsorted[q].1 == unsorted[a].1 {
                        assert(a <= q);
                        if a < q {
                            assert(unsorted[a].0 < unsorted[q].0);
                        }
                    }
                }
                assert(fewest_outputs(cs, plan@, e));
            }
            let ghost old_plan = plan@;
            plan.push((ci, mi));
            remaining_constraints -= 1;
            proof {
                assert forall|k: int| 0 <= k < plan@.len() implies fewest_outputs(cs, plan@.subrange(0, k), #[trigger] plan@[k]) by {
                    if k < old_plan.len() {
                        assert(plan@.subrange(0, k) =~= old_plan.subrange(0, k));
                        assert(plan@[k] == old_plan[k]);
                    } else {
                        assert(plan@.subrange(0, k) =~= old_plan);
                    }
                }
            }
            proof {
                assert(plan@.last() == e);
                assert forall|c: int| 0 <= c < n_constraints implies (enforced(plan@, c) <==> (enforced(old_plan, c) || c == ci)) by {
                    if enforced(plan@, c) {
                        let k = choose|k: int| 0 <= k < plan@.len() && (#[trigger] plan@[k]).0 == c;
                        if k < old_plan.len() {
                            assert(old_plan[k] == plan@[k]);
                        }
                    }
                    if enforced(old_plan, c) {
                        let k = choose|k: int| 0 <= k < old_plan.len() && (#[trigger] old_plan[k]).0 == c;
                        assert(plan@[k] == old_plan[k]);
                    }
                    if c == ci {
                        assert(plan@[old_plan.len() as int].0 == c);
                    }
                }
                assert(!enforced(old_plan, ci as int));
                assert forall|a: int, b: int| 0 <= a < b < plan@.len() implies (#[trigger] plan@[a]).0 != (#[trigger] plan@[b]).0 by {
                    if b == old_plan.len() {
                        if plan@[a].0 == ci {
                            assert(old_plan[a].0 == ci);
                            assert(enforced(old_plan, ci as int));
                        }
                    } else {
                        assert(plan@[a] == old_plan[a] && plan@[b] == old_plan[b]);
                    }
                }
                assert forall|a: int, b: int, x: usize|
                    0 <= a < b < plan@.len() && #[trigger] writes(cs, plan@[a], x) implies !cs[(#[trigger] plan@[b]).0 as int].variables.contains(x) by {
                    assert(plan@[a] == old_plan[a]);
                    if b < old_plan.len() {
                        assert(plan@[b] == old_plan[b]);
                    }
                }
                assert forall|k: int| 0 <= k < plan@.len() implies (#[trigger] plan@[k]).0 < cs.len() && plan@[k].1 < cs[plan@[k].0 as int].methods.len()
                    && chosen(cs, plan@[k]).outputs.len() > 0 by {
                    if k < old_plan.len() {
                        assert(plan@[k] == old_plan[k]);
                    } else {
                        assert(m.outputs.contains(idx));
                    }
                }
                assert forall|k: int, c: int, x: usize|
                    0 <= k < plan@.len() && 0 <= c < n_constraints && !enforced(plan@, c) && #[trigger] writes(
                        cs,
                        plan@[k],
                        x,
                    ) implies !(#[trigger] cs[c].variables).contains(x) by {
                    if k < old_plan.len() {
                        assert(plan@[k] == old_plan[k]);
                    }
                }
            }

            // Remove all references to this constraint
            let vars = constraint.variables();
            let ghost before = variables@;
            let mut k: usize = 0;
            while k < vars.len()
                invariant
                    cs == constraint_views(constraints@),
                    system_wf(n_variables as nat, cs),
                    ci < n_constraints,
                    n_constraints == constraints@.len(),
                    vars@ == cs[ci as int].variables,
                    k <= vars@.len(),
                    variables@.len() == n_variables,
                    before.len() == n_variables,
                    forall|v: int| 0 <= v < n_variables ==> (#[trigger] variables@[v])@.no_duplicates(),
                    forall|v: int, c: usize|
                        0 <= v < n_variables ==> (#[trigger] variables@[v]@.contains(c) <==> (before[v]@.contains(c)
                            && !(c == ci && vars@.subrange(0, k as int).contains(v as usize)))),
                    forall|j: int| 0 <= j < potentially_free_variables@.len() ==> #[trigger] potentially_free_variables@[j]
                        < n_variables,
                    potentially_free_variables@.len() >= tail.len(),
                    forall|i: int| 0 <= i < tail.len() ==> #[trigger] potentially_free_variables@[i] == tail[i],
                    forall|q: int|
                        0 <= q < k && (#[trigger] variables@[vars@[q] as int])@.len() == 1 ==> potentially_free_variables@.contains(
                            vars@[q],
                        ),
                decreases vars@.len() - k,
            {
                let vi = vars[k];
                assert(cs[ci as int].variables[k as int] < n_variables);
                proof {
                    assert(lists_used_variables(cs[ci as int].variables, cs[ci as int].methods));
                    if vars@.subrange(0, k as int).contains(vi) {
                        let j = choose|j: int| 0 <= j < k && vars@[j] == vi;
                        assert(vars@[j] == vars@[k as int]);
                    }
                }
                let ghost mid = variables@;
                let ghost queue_mid = potentially_free_variables@;
                variables[vi].remove_reference(ci);
                if variables[vi].is_free() {
                    potentially_free_variables.push_back(vi);
                }
                proof {
                    assert(potentially_free_variables@.len() >= queue_mid.len());
                    assert forall|i: int| 0 <= i < queue_mid.len() implies #[trigger] potentially_free_variables@[i] == queue_mid[i] by {}
                    assert forall|q: int|
                        0 <= q < k + 1 && (#[trigger] variables@[vars@[q] as int])@.len() == 1 implies potentially_free_variables@.contains(
                            vars@[q],
                        ) by {
                        if q < k {
                            assert(lists_used_variables(cs[ci as int].variables, cs[ci as int].methods));
                            assert(vars@[q] != vi);
                            assert(variables@[vars@[q] as int] == mid[vars@[q] as int]);
                            let i = choose|i: int| 0 <= i < queue_mid.len() && queue_mid[i] == vars@[q];
                            assert(potentially_free_variables@[i] == queue_mid[i]);
                        } else {
                            assert(potentially_free_variables@[queue_mid.len() as int] == vi);
                        }
                    }
                    assert(vars@.subrange(0, k + 1) =~= vars@.subrange(0, k as int).push(vi));
                    assert forall|v: int| 0 <= v < n_variables implies (#[trigger] variables@[v])@.no_duplicates() by {
                        if v != vi {
                            assert(variables@[v] == mid[v]);
                        }
                    }
                    assert forall|v: int, c: usize|
                        0 <= v < n_variables implies (#[trigger] variables@[v]@.contains(c) <==> (before[v]@.contains(c)
                            && !(c == ci && vars@.subrange(0, k + 1).contains(v as usize)))) by {
                        if v != vi {
                            assert(variables@[v] == mid[v]);
                        }
                    }
                }
                k += 1;
            }
            proof {
                assert(vars@.subrange(0, vars@.len() as int) =~= vars@);
                assert forall|v: int, c: usize|
                    0 <= v < n_variables implies (#[trigger] variables@[v]@.contains(c) <==> (c < n_constraints
                        && !enforced(plan@, c as int) && cs[c as int].variables.contains(v as usize))) by {
                    assert(before[v]@.contains(c) <==> (c < n_constraints
                        && !enforced(old_plan, c as int) && cs[c as int].variables.contains(v as usize)));
                }
            }
            // Every method that has become free writes a variable that was queued just now.
            proof {
                assert forall|c: int, m: int|
                    0 <= c < n_constraints && !enforced(plan@, c) && #[trigger] free_now(cs, plan@, c, m) implies exists|k: int|
                        0 <= k < potentially_free_variables@.len() && cs[c].methods[m].outputs.contains(
                            #[trigger] potentially_free_variables@[k],
                        ) by {
                    assert(!enforced(old_plan, c) && c != ci);
                    let outs = cs[c].methods[m].outputs;
                    if free_now(cs, old_plan, c, m) {
                        let k = choose|k: int| 0 <= k < queue0.len() && cs[c].methods[m].outputs.contains(#[trigger] queue0[k]);
                        if k == 0 {
                            let j = choose|j: int| 0 <= j < outs.len() && outs[j] == idx;
                            assert(before[idx as int]@.contains(ci));
                            assert(cs[ci as int].variables.contains(idx));
                            assert(!cs[ci as int].variables.contains(outs[j]));
                        }
                        assert(potentially_free_variables@[k - 1] == tail[k - 1]);
                    } else {
                        let (j, d) = choose|j: int, d: int|
                            0 <= j < outs.len() && 0 <= d < cs.len() && d != c && !enforced(old_plan, d)
                                && cs[d].variables.contains(outs[j]);
                        if !enforced(plan@, d) {
                            assert(!(cs[d].variables).contains(cs[c].methods[m].outputs[j]));
                        }
                        assert(d == ci);
                        let x = outs[j];
                        let q = choose|q: int| 0 <= q < vars@.len() && vars@[q] == x;
                        lemma_output_below(n_variables as nat, cs, c, m, x);
                        lemma_free_output_single_ref(n_variables as nat, cs, plan@, variables@[x as int]@, c, m, j);
                        assert(variables@[vars@[q] as int]@.len() == 1);
                        assert(potentially_free_variables@.contains(x));
                        let k = choose|k: int| 0 <= k < potentially_free_variables@.len() && potentially_free_variables@[k] == x;
                        assert(cs[c].methods[m].outputs.contains(potentially_free_variables@[k]));
                    }
                }
            }
        } else {
            // No method of the constraint writes `idx` and only free variables.
            proof {
                let p = choose|p: Seq<int>| is_stable_sort_by_second(unsorted, free_methods@, p);
                assert(unsorted.len() == 0);
                assert forall|c: int, m: int|
                    0 <= c < n_constraints && !enforced(plan@, c) && #[trigger] free_now(cs, plan@, c, m) implies exists|k: int|
                        0 <= k < potentially_free_variables@.len() && cs[c].methods[m].outputs.contains(
                            #[trigger] potentially_free_variables@[k],
                        ) by {
                    let k = choose|k: int| 0 <= k < queue0.len() && cs[c].methods[m].outputs.contains(#[trigger] queue0[k]);
                    if k == 0 {
                        assert(cs[c].methods[m].outputs.contains(idx));
                        assert(variables@[idx as int]@.contains(c as usize));
                        assert(variables@[idx as int]@[0] == ci);
                        assert(c == ci);
                        assert forall|o: int| 0 <= o < cs[ci as int].methods[m].outputs.len() implies (#[trigger] variables@[cs[ci as int].methods[m].outputs[o] as int])@.len() == 1 by {
                            let x = cs[c].methods[m].outputs[o];
                            lemma_output_below(n_variables as nat, cs, c, m, x);
                            lemma_free_output_single_ref(n_variables as nat, cs, plan@, variables@[x as int]@, c, m, o);
                        }
                        assert(cs[ci as int].methods[m].outputs.contains(idx));
                        assert(exists|q: int| 0 <= q < unsorted.len() && (#[trigger] unsorted[q]).0 == m);
                    }
                    assert(potentially_free_variables@[k - 1] == queue0[k]);
                }
            }
        }
    }

    Some(plan)
}

/// A constraint and the method that enforces it in a plan.
#[derive(Copy, Clone, Debug, PartialEq, Eq)]
pub struct SatisfiedConstraint<'a, M> {
    name: &'a str,
    method: &'a M,
}

impl<'a, M> SatisfiedConstraint<'a, M> {
    /// The name of the constraint.
    pub closed spec fn name_spec(&self) -> &'a str {
        self.name
    }

    /// The method that enforces the constraint.
    pub closed spec fn method_spec(&self) -> &'a M {
        self.method
    }

    /// Pairs the name of a constraint with the method that enforces it.
    pub fn new(name: &'a str, method: &'a M) -> (r: Self)
        ensures
            r.name_spec() == name,
            r.method_spec() == method,
    {
        Self { name, method }
    }

    /// Returns the name of the constraint.
    pub fn name(&self) -> (r: &'a str)
        ensures
            r == self.name_spec(),
    {
        self.name
    }

    /// Returns the method that enforces the constraint.
    pub fn method(&self) -> (r: &'a M)
        ensures
            r == self.method_spec(),
    {
        self.method
    }
}

impl<'a, M: Vertex> Vertex for SatisfiedConstraint<'a, M> {
    open spec fn input_vars(&self) -> Seq<usize> {
        self.method_spec().input_vars()
    }

    open spec fn output_vars(&self) -> Seq<usize> {
        self.method_spec().output_vars()
    }

    open spec fn stays(&self) -> bool {
        self.method_spec().stays()
    }

    fn inputs(&self) -> (r: &[usize]) {
        self.method.inputs()
    }

    fn outputs(&self) -> (r: &[usize]) {
        self.method.outputs()
    }

    fn is_stay(&self) -> (r: bool) {
        self.method.is_stay()
    }
}

/// Entry `k` of `plan` names constraint `p[k].0` of `cs` and holds its method `p[k].1`.
pub open spec fn realizes<T: 'static>(
    cs: Seq<ConstraintView>,
    p: Seq<(usize, usize)>,
    plan: Seq<SatisfiedConstraint<'_, Method<T>>>,
) -> bool {
    &&& plan.len() == p.len()
    &&& forall|k: int|
        0 <= k < p.len() ==> (#[trigger] plan[k]).name_spec()@ == cs[p[k].0 as int].name
            && plan[k].method_spec()@ == chosen(cs, p[k])
}

/// The vertices `ms` run the methods that `p` selects from `cs`.
pub open spec fn runs_plan<M: Vertex>(cs: Seq<ConstraintView>, p: Seq<(usize, usize)>, ms: Seq<M>) -> bool {
    &&& ms.len() == p.len()
    &&& forall|k: int|
        0 <= k < p.len() ==> (#[trigger] ms[k]).input_vars() == chosen(cs, p[k]).inputs && ms[k].output_vars()
            == chosen(cs, p[k]).outputs
}

/// The methods that an elimination plan selects can run in the reverse order of the plan:
/// no method writes a variable that a method selected earlier in the plan reads.
/// In particular, their dataflow graph has no cycle.
pub proof fn lemma_elimination_plan_runs_backwards<M: Vertex>(
    n: nat,
    cs: Seq<ConstraintView>,
    p: Seq<(usize, usize)>,
    ms: Seq<M>,
)
    requires
        system_wf(n, cs),
        is_partial_elimination(cs, p),
        runs_plan(cs, p, ms),
    ensures
        is_topological_order(ms, Seq::new(ms.len(), |k: int| ms.len() - 1 - k)),
        !has_dataflow_cycle(ms),
{
    assert forall|i: int, j: int| 0 <= i < j < ms.len() implies !feeds(#[trigger] ms[i], #[trigger] ms[j]) by {
        if feeds(ms[i], ms[j]) {
            let k = choose|k: int| 0 <= k < ms[i].output_vars().len() && ms[j].input_vars().contains(#[trigger] ms[i].output_vars()[k]);
            let x = ms[i].output_vars()[k];
            assert(writes(cs, p[i], x));
            assert(!cs[p[j].0 as int].variables.contains(x));
            let c = cs[p[j].0 as int];
            assert(lists_used_variables(cs[p[j].0 as int].variables, cs[p[j].0 as int].methods));
            assert(c.methods[p[j].1 as int].inputs.contains(x));
            assert(used_by(c.methods, x));
        }
    }
    lemma_no_forward_feeds_runs_backwards(ms);
}

/// When no vertex writes a variable that a later vertex reads, the vertices can run in
/// reverse order, and their dataflow graph has no cycle.
pub proof fn lemma_no_forward_feeds_runs_backwards<M: Vertex>(ms: Seq<M>)
    requires
        forall|i: int, j: int| 0 <= i < j < ms.len() ==> !feeds(#[trigger] ms[i], #[trigger] ms[j]),
    ensures
        is_topological_order(ms, Seq::new(ms.len(), |k: int| ms.len() - 1 - k)),
        !has_dataflow_cycle(ms),
{
    let len = ms.len();
    let ord = Seq::new(len, |k: int| len - 1 - k);
    assert(is_index_permutation(ord, len as int));
    assert forall|a: int, b: int| 0 <= a < b < ord.len() implies !dataflow_edge(ms, #[trigger] ord[b], #[trigger] ord[a]) by {
        assert(!feeds(ms[ord[b]], ms[ord[a]]));
    }
    lemma_topological_order_excludes_cycle(ms, ord);
}

/// Every variable that a method of a well formed system reads or writes is below `n`.
pub proof fn lemma_chosen_indices_below(n: nat, cs: Seq<ConstraintView>, e: (usize, usize), x: usize)
    requires
        system_wf(n, cs),
        e.0 < cs.len(),
        e.1 < cs[e.0 as int].methods.len(),
        chosen(cs, e).inputs.contains(x) || chosen(cs, e).outputs.contains(x),
    ensures
        x < n,
{
    let c = cs[e.0 as int];
    assert(lists_used_variables(cs[e.0 as int].variables, cs[e.0 as int].methods));
    if c.methods[e.1 as int].inputs.contains(x) {
        assert(c.methods[e.1 as int].inputs.contains(x));
    } else {
        assert(c.methods[e.1 as int].outputs.contains(x));
    }
    assert(used_by(c.methods, x));
    assert(c.variables.contains(x));
    let k = choose|k: int| 0 <= k < c.variables.len() && c.variables[k] == x;
    assert(cs[e.0 as int].variables[k] < n);
}

/// Runs the simple planner on a component: each constraint is enforced by one of its methods,
/// in the order the planner enforced them.
///
/// When a plan is returned, it is an elimination plan: read backwards, it is an order in which
/// the methods can run. `None` is returned exactly when the constraints have no elimination plan.
pub fn simple_planner<T: 'static>(component: &Component<T>) -> (r: Option<Vec<SatisfiedConstraint<'_, Method<T>>>>)
    requires
        component.wf(),
    ensures
        r matches Some(plan) ==> exists|p: Seq<(usize, usize)>|
            #[trigger] is_elimination_plan(component.constraints_view(), p) && realizes(component.constraints_view(), p, plan@)
                && fewest_each(component.constraints_view(), p),
        r is None ==> forall|p: Seq<(usize, usize)>| !#[trigger] is_elimination_plan(component.constraints_view(), p),
{
    let constraints = component.constraints();
    let ghost cs = component.constraints_view();
    let indices = match simple_plan_indices(component.n_variables(), constraints) {
        Some(indices) => indices,
        None => return None,
    };
    let mut plan: Vec<SatisfiedConstraint<'_, Method<T>>> = Vec::new();
    let mut k: usize = 0;
    while k < indices.len()
        invariant
            cs == constraint_views(constraints@),
            is_elimination_plan(cs, indices@),
            k <= indices@.len(),
            plan@.len() == k,
            forall|j: int|
                0 <= j < k ==> (#[trigger] plan@[j]).name_spec()@ == cs[indices@[j].0 as int].name
                    && plan@[j].method_spec()@ == chosen(cs, indices@[j]),
        decreases indices@.len() - k,
    {
        let (ci, mi) = indices[k];
        assert(indices@[k as int].0 < cs.len());
        let constraint = &constraints[ci];
        assert(cs[ci as int] == constraint@);
        let methods = constraint.methods();
        assert(crate::constraint::method_views(methods@)[mi as int] == methods@[mi as int]@);
        plan.push(SatisfiedConstraint::new(constraint.name(), &methods[mi]));
        k += 1;
    }
    Some(plan)
}

/// Runs the simple planner on a component, and sorts the plan so that every method comes
/// after the methods that write the variables it reads.
///
/// Returns `None` exactly when the simple planner finds no plan, that is, when the constraints have
/// no elimination plan: the plan it finds can always be sorted.
pub fn new_simple_planner_toposort<T: 'static>(component: &Component<T>) -> (r: Option<
    Vec<SatisfiedConstraint<'_, Method<T>>>,
>)
    requires
        component.wf(),
    ensures
        r matches Some(sorted) ==> exists|p: Seq<(usize, usize)>, plan: Seq<SatisfiedConstraint<'_, Method<T>>>, ord: Seq<int>|
            #![trigger realizes(component.constraints_view(), p, plan), is_topological_order(plan, ord)]
            is_elimination_plan(component.constraints_view(), p) && realizes(component.constraints_view(), p, plan)
                && fewest_each(component.constraints_view(), p) && is_topological_order(plan, ord) && sorted@.len() == ord.len()
                && forall|k: int|
                0 <= k < ord.len() ==> #[trigger] sorted@[k] == plan[ord[k]],
        r is None ==> forall|p: Seq<(usize, usize)>| !#[trigger] is_elimination_plan(component.constraints_view(), p),
{
    let plan = match simple_planner(component) {
        Some(plan) => plan,
        None => return None,
    };
    let ghost cs = component.constraints_view();
    let ghost p = choose|p: Seq<(usize, usize)>|
        #[trigger] is_elimination_plan(cs, p) && realizes(cs, p, plan@) && fewest_each(cs, p);
    proof {
        assert(runs_plan(cs, p, plan@));
        lemma_elimination_plan_runs_backwards(component.n_vars(), cs, p, plan@);
        assert forall|i: int, k: int| 0 <= i < plan@.len() && 0 <= k < plan@[i].input_vars().len() implies #[trigger] plan@[i].input_vars()[k]
            < component.n_vars() by {
            lemma_chosen_indices_below(component.n_vars(), cs, p[i], plan@[i].input_vars()[k]);
        }
        assert forall|i: int, k: int| 0 <= i < plan@.len() && 0 <= k < plan@[i].output_vars().len() implies #[trigger] plan@[i].output_vars()[k]
            < component.n_vars() by {
            lemma_chosen_indices_below(component.n_vars(), cs, p[i], plan@[i].output_vars()[k]);
        }
        assert(indices_below(plan@, component.n_vars()));
    }
    let sorted = match toposort(plan.as_slice(), component.n_variables()) {
        Some(sorted) => sorted,
        None => return None,
    };
    let mut out: Vec<SatisfiedConstraint<'_, Method<T>>> = Vec::new();
    let mut k: usize = 0;
    while k < sorted.len()
        invariant
            k <= sorted@.len(),
            out@.len() == k,
            forall|j: int| 0 <= j < k ==> #[trigger] out@[j] == *sorted@[j],
        decreases sorted@.len() - k,
    {
        let entry = sorted[k];
        out.push(SatisfiedConstraint::new(entry.name(), entry.method()));
        k += 1;
    }
    proof {
        let ord = choose|ord: Seq<int>| #[trigger] is_topological_order(plan@, ord) && sorted@.len() == ord.len() && forall|k: int|
            0 <= k < ord.len() ==> #[trigger] sorted@[k] == plan@[ord[k]];
        assert(is_elimination_plan(cs, p) && realizes(cs, p, plan@) && is_topological_order(plan@, ord) && out@.len() == ord.len()
            && forall|k: int| 0 <= k < ord.len() ==> #[trigger] out@[k] == plan@[ord[k]]);
    }
    Some(out)
}

} // verus!
