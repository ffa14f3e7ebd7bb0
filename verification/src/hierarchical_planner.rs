//! The hierarchical planner: it adds stay constraints for the variables in order of their
//! ranking, keeps those with which the simple planner still finds a plan, and returns the
//! last plan found, without the stay constraints, in an order in which it can run.

use crate::component::Component;
use crate::constraint::{lists_used_variables, used_by, Constraint, ConstraintView};
use crate::error::PlanError;
use crate::method::{Method, MethodView};
use crate::pruner::{forced, forces, lemma_forced_pruned, methods_pruned, uses_present_methods, var_map_wf};
use crate::simple_planner::{
    chosen, constraint_views, is_elimination_plan, lemma_chosen_indices_below, lemma_elimination_plan_covers, lemma_no_forward_feeds_runs_backwards,
    simple_plan_indices, system_wf, writes,
};
use crate::toposort::toposort;
use crate::util::decimal;
use crate::vertex::{feeds, indices_below, is_topological_order, Vertex};
use vstd::prelude::*;

verus! {

broadcast use vstd::seq_lib::group_seq_properties;

/// A constraint, by name, and the method that enforces it.
#[derive(Clone, Debug, Default, PartialEq, Eq)]
pub struct OwnedEnforcedConstraint<M> {
    name: String,
    method: M,
}

impl<M> OwnedEnforcedConstraint<M> {
    /// The name of the constraint.
    pub closed spec fn name_spec(&self) -> Seq<char> {
        self.name@
    }

    /// The method that enforces the constraint.
    pub closed spec fn method_spec(&self) -> M {
        self.method
    }

    /// Pairs the name of a constraint with the method that enforces it.
    pub fn new(name: &str, method: M) -> (r: Self)
        ensures
            r.name_spec() == name@,
            r.method_spec() == method,
    {
        Self { name: name.to_owned(), method }
    }

    /// Returns the name of the constraint.
    pub fn name(&self) -> (r: &str)
        ensures
            r@ == self.name_spec(),
    {
        self.name.as_str()
    }

    /// Returns the method that enforces the constraint.
    pub fn method(&self) -> (r: &M)
        ensures
            *r == self.method_spec(),
    {
        &self.method
    }
}

impl<T: 'static> OwnedEnforcedConstraint<Method<T>> {
    /// An owned copy of a constraint and the method that enforces it.
    pub fn from_satisfied(satisfied: crate::simple_planner::SatisfiedConstraint<'_, Method<T>>) -> (r: Self)
        ensures
            r.name_spec() == satisfied.name_spec()@,
            r.method_spec()@ == satisfied.method_spec()@,
    {
        Self { name: satisfied.name().to_owned(), method: satisfied.method().duplicate() }
    }

    /// A stay constraint for variable `index`, named `stay(` and the index `)`.
    pub fn stay(index: usize) -> (r: Self)
        ensures
            r.name_spec() == "stay("@ + decimal(index as nat) + ")"@,
            r.method_spec().name_view() == "_stay_"@ + decimal(index as nat),
            r.method_spec().input_vars() == seq![index],
            r.method_spec().output_vars() == seq![index],
            r.method_spec().stays(),
    {
        let mut name = String::from_str("stay(");
        let digits = crate::util::usize_to_string(index);
        name.append(digits.as_str());
        name.append(")");
        Self { name, method: Method::stay(index) }
    }

    /// A copy of this entry, sharing the function of its method.
    pub fn duplicate(&self) -> (r: Self)
        ensures
            r.name_spec() == self.name_spec(),
            r.method_spec()@ == self.method_spec()@,
    {
        Self { name: self.name.clone(), method: self.method.duplicate() }
    }
}

impl<M: Vertex> Vertex for OwnedEnforcedConstraint<M> {
    open spec fn input_vars(&self) -> Seq<usize> {
        self.method_spec().input_vars()
    }

    open spec fn output_vars(&self) -> Seq<usize> {
        self.method_spec().output_vars()
    }

    open spec fn stays(&self) -> bool {
        self.method_spec().stays()
    }

    fn inputs(&self) -> (r: &[usize]) {
        self.method.inputs()
    }

    fn outputs(&self) -> (r: &[usize]) {
        self.method.outputs()
    }

    fn is_stay(&self) -> (r: bool) {
        self.method.is_stay()
    }
}

/// A plan that owns its entries.
pub type OwnedPlan<M> = Vec<OwnedEnforcedConstraint<M>>;

/// Entry `e` enforces constraint `c` of `cs`: it has its name and one of its methods.
pub open spec fn enforces<T: 'static>(cs: Seq<ConstraintView>, e: OwnedEnforcedConstraint<Method<T>>, c: int) -> bool {
    &&& 0 <= c < cs.len()
    &&& e.name_spec() == cs[c].name
    &&& cs[c].methods.contains(e.method_spec()@)
}

/// No entry of `plan` reads or writes a variable that an earlier entry writes.
pub open spec fn later_untouched<M: Vertex>(plan: Seq<M>) -> bool {
    forall|a: int, b: int, x: usize|
        0 <= a < b < plan.len() && #[trigger] plan[a].output_vars().contains(x) ==> !(#[trigger] plan[b]).input_vars().contains(x)
            && !plan[b].output_vars().contains(x)
}

/// No variable is written by two entries of `plan`.
pub open spec fn writes_disjoint<M: Vertex>(plan: Seq<M>) -> bool {
    forall|a: int, b: int, x: usize|
        0 <= a < plan.len() && 0 <= b < plan.len() && a != b && #[trigger] plan[a].output_vars().contains(x)
            ==> !(#[trigger] plan[b]).output_vars().contains(x)
}

/// No entry of `plan` writes a variable that an earlier entry reads.
pub open spec fn runs_in_order<M: Vertex>(plan: Seq<M>) -> bool {
    forall|a: int, b: int| 0 <= a < b < plan.len() ==> !feeds(#[trigger] plan[b], #[trigger] plan[a])
}

/// `plan` enforces constraints of `cs`, entry `k` enforcing constraint `map[k]`, each at most once,
/// with methods that are not stay methods; every constraint of `cs` is enforced, unless one of its
/// methods is a stay method.
pub open spec fn plan_enforces<T: 'static>(
    cs: Seq<ConstraintView>,
    plan: Seq<OwnedEnforcedConstraint<Method<T>>>,
    map: Seq<int>,
) -> bool {
    &&& plan.len() == map.len()
    &&& forall|k: int| 0 <= k < plan.len() ==> enforces(cs, #[trigger] plan[k], map[k]) && !plan[k].method_spec()@.is_stay
    &&& forall|a: int, b: int| 0 <= a < map.len() && 0 <= b < map.len() && a != b ==> #[trigger] map[a] != #[trigger] map[b]
    &&& forall|c: int| 0 <= c < cs.len() ==> #[trigger] maps_to(map, c) || has_stay_method(cs[c].methods)
}

/// Some entry of `map` is `c`.
pub open spec fn maps_to(map: Seq<int>, c: int) -> bool {
    exists|k: int| 0 <= k < map.len() && #[trigger] map[k] == c
}

/// One of the methods `ms` is a stay method.
pub open spec fn has_stay_method(ms: Seq<MethodView>) -> bool {
    exists|m: MethodView| #[trigger] ms.contains(m) && m.is_stay
}

/// A plan found while adding stay constraints to `cs`: entry `k` enforces constraint `map[k]`
/// of `cs` when it is below the number of constraints of `cs`, and is a stay method otherwise;
/// no constraint is enforced twice, every constraint of `cs` is enforced, and later entries do not
/// touch what earlier entries write.
pub open spec fn candidate<T: 'static>(
    cs: Seq<ConstraintView>,
    plan: Seq<OwnedEnforcedConstraint<Method<T>>>,
    map: Seq<int>,
) -> bool {
    &&& plan.len() == map.len()
    &&& forall|k: int|
        0 <= k < plan.len() ==> 0 <= #[trigger] map[k] && (map[k] < cs.len() ==> enforces(cs, plan[k], map[k])) && (map[k]
            >= cs.len() ==> plan[k].method_spec()@.is_stay)
    &&& forall|a: int, b: int| 0 <= a < map.len() && 0 <= b < map.len() && a != b ==> #[trigger] map[a] != #[trigger] map[b]
    &&& forall|c: int| 0 <= c < cs.len() ==> #[trigger] maps_to(map, c)
    &&& later_untouched(plan)
}

/// The working constraints `cv` of the planner: the first ones are those of `cs`, with some of
/// their methods, and the others only have stay methods.
pub open spec fn working_constraints(cs: Seq<ConstraintView>, cv: Seq<ConstraintView>) -> bool {
    &&& cv.len() >= cs.len()
    &&& forall|c: int| 0 <= c < cs.len() ==> (#[trigger] cv[c]).name == cs[c].name
    &&& forall|c: int, m: MethodView| 0 <= c < cs.len() && #[trigger] cv[c].methods.contains(m) ==> cs[c].methods.contains(m)
    &&& forall|c: int, m: MethodView| cs.len() <= c < cv.len() && #[trigger] cv[c].methods.contains(m) ==> m.is_stay
}

/// No entry of `plan` writes `x`.
pub open spec fn writes_nowhere_spec<M: Vertex>(plan: Seq<M>, x: usize) -> bool {
    forall|k: int| 0 <= k < plan.len() ==> !(#[trigger] plan[k]).output_vars().contains(x)
}

/// No entry of `p`, a plan of `cs`, selects a method that writes `x`.
pub open spec fn plan_leaves(cs: Seq<ConstraintView>, p: Seq<(usize, usize)>, x: usize) -> bool {
    forall|k: int| 0 <= k < p.len() ==> !#[trigger] writes(cs, p[k], x)
}

/// In an elimination plan, a variable is written by at most one entry.
pub proof fn lemma_single_writer(n: nat, cs: Seq<ConstraintView>, p: Seq<(usize, usize)>, a: int, x: usize)
    requires
        system_wf(n, cs),
        is_elimination_plan(cs, p),
        0 <= a < p.len(),
        writes(cs, p[a], x),
    ensures
        forall|b: int| 0 <= b < p.len() && b != a ==> !#[trigger] writes(cs, p[b], x),
{
    assert forall|b: int| 0 <= b < p.len() && b != a implies !#[trigger] writes(cs, p[b], x) by {
        if writes(cs, p[b], x) {
            crate::simple_planner::lemma_written_is_referenced(n, cs, p[a], x);
            crate::simple_planner::lemma_written_is_referenced(n, cs, p[b], x);
            if a < b {
                assert(!cs[p[b].0 as int].variables.contains(x));
            } else {
                assert(!cs[p[a].0 as int].variables.contains(x));
            }
        }
    }
}

/// An elimination plan that leaves `x` unwritten stays one when a constraint whose only method
/// writes `x` is added, and enforced last.
pub proof fn lemma_stay_appended(cs: Seq<ConstraintView>, p: Seq<(usize, usize)>, x: usize, sc: ConstraintView)
    requires
        is_elimination_plan(cs, p),
        plan_leaves(cs, p, x),
        cs.len() < usize::MAX,
        sc.methods.len() == 1,
        sc.methods[0].outputs == seq![x],
        forall|y: usize| #[trigger] sc.variables.contains(y) ==> y == x,
    ensures
        is_elimination_plan(cs.push(sc), p.push((cs.len() as usize, 0usize))),
{
    let cs2 = cs.push(sc);
    let p2 = p.push((cs.len() as usize, 0usize));
    assert forall|k: int| 0 <= k < p.len() implies chosen(cs2, #[trigger] p2[k]) == chosen(cs, p[k]) by {
        assert(p2[k] == p[k]);
        assert(p[k].0 < cs.len());
        assert(cs2[p[k].0 as int] == cs[p[k].0 as int]);
    }
    assert(chosen(cs2, p2[p.len() as int]) == sc.methods[0]);
    assert forall|k: int| 0 <= k < p2.len() implies (#[trigger] p2[k]).0 < cs2.len() && p2[k].1 < cs2[p2[k].0 as int].methods.len()
        && chosen(cs2, p2[k]).outputs.len() > 0 by {
        if k < p.len() {
            assert(p2[k] == p[k]);
        }
    }
    assert forall|a: int, b: int| 0 <= a < b < p2.len() implies (#[trigger] p2[a]).0 != (#[trigger] p2[b]).0 by {
        assert(p2[a] == p[a]);
        if b < p.len() {
            assert(p2[b] == p[b]);
        }
    }
    assert forall|a: int, b: int, y: usize|
        0 <= a < b < p2.len() && #[trigger] writes(cs2, p2[a], y) implies !cs2[(#[trigger] p2[b]).0 as int].variables.contains(y) by {
        assert(p2[a] == p[a]);
        assert(writes(cs, p[a], y));
        if b < p.len() {
            assert(p2[b] == p[b]);
            assert(cs2[p[b].0 as int] == cs[p[b].0 as int]);
        } else {
            assert(!writes(cs, p[a], x));
            if sc.variables.contains(y) {
                assert(y == x);
            }
        }
    }
}

/// An elimination plan of `cs` with a constraint appended whose only method writes `x`, and which
/// references nothing else, gives one of `cs` that leaves `x` unwritten: the same entries without
/// the one that enforces the appended constraint.
pub proof fn lemma_stay_removed(n: nat, cs: Seq<ConstraintView>, q: Seq<(usize, usize)>, x: usize, sc: ConstraintView) -> (p: Seq<
    (usize, usize),
>)
    requires
        is_elimination_plan(cs.push(sc), q),
        sc.methods.len() == 1,
        sc.methods[0].outputs == seq![x],
        system_wf(n, cs.push(sc)),
    ensures
        is_elimination_plan(cs, p),
        plan_leaves(cs, p, x),
{
    let cs2 = cs.push(sc);
    let last = cs.len() as int;
    crate::simple_planner::lemma_elimination_plan_covers(cs2, q, last);
    let t = choose|t: int| 0 <= t < q.len() && (#[trigger] q[t]).0 == last;
    let p = q.remove(t);
    assert(q[t].1 == 0);
    assert(writes(cs2, q[t], x));
    assert forall|k: int| 0 <= k < p.len() implies (#[trigger] p[k]).0 < cs.len() && p[k] == (if k < t { q[k] } else { q[k + 1] }) by {
        let j = if k < t { k } else { k + 1 };
        assert(p[k] == q[j]);
        assert(q[j].0 != q[t].0);
    }
    assert forall|k: int| 0 <= k < p.len() implies #[trigger] chosen(cs, p[k]) == chosen(cs2, p[k]) by {
        assert(cs2[p[k].0 as int] == cs[p[k].0 as int]);
    }
    assert forall|k: int| 0 <= k < p.len() implies (#[trigger] p[k]).0 < cs.len() && p[k].1 < cs[p[k].0 as int].methods.len()
        && chosen(cs, p[k]).outputs.len() > 0 by {
        let j = if k < t { k } else { k + 1 };
        assert(p[k] == q[j]);
        assert(cs2[p[k].0 as int] == cs[p[k].0 as int]);
    }
    assert forall|a: int, b: int| 0 <= a < b < p.len() implies (#[trigger] p[a]).0 != (#[trigger] p[b]).0 by {
        let ja = if a < t { a } else { a + 1 };
        let jb = if b < t { b } else { b + 1 };
        assert(p[a] == q[ja] && p[b] == q[jb] && ja < jb);
    }
    assert forall|a: int, b: int, y: usize|
        0 <= a < b < p.len() && #[trigger] writes(cs, p[a], y) implies !cs[(#[trigger] p[b]).0 as int].variables.contains(y) by {
        let ja = if a < t { a } else { a + 1 };
        let jb = if b < t { b } else { b + 1 };
        assert(p[a] == q[ja] && p[b] == q[jb] && ja < jb);
        assert(writes(cs2, q[ja], y));
        assert(cs2[q[jb].0 as int] == cs[q[jb].0 as int]);
    }
    assert(p.len() == cs.len());
    assert forall|k: int| 0 <= k < p.len() implies !#[trigger] writes(cs, p[k], x) by {
        let j = if k < t { k } else { k + 1 };
        assert(p[k] == q[j]);
        if writes(cs, p[k], x) {
            assert(writes(cs2, q[j], x));
            crate::simple_planner::lemma_written_is_referenced(n, cs2, q[j], x);
            crate::simple_planner::lemma_written_is_referenced(n, cs2, q[t], x);
            if j < t {
                assert(!cs2[q[t].0 as int].variables.contains(x));
            } else {
                assert(!cs2[q[j].0 as int].variables.contains(x));
            }
        }
    }
    p
}

/// The position of the method that entry `k` of the plan `p` of `cs` selects, among the methods
/// of its constraint in `ws`.
pub open spec fn position_in(ws: Seq<ConstraintView>, cs: Seq<ConstraintView>, p: Seq<(usize, usize)>, k: int) -> int {
    choose|i: int| 0 <= i < ws[p[k].0 as int].methods.len() && ws[p[k].0 as int].methods[i] == chosen(cs, p[k])
}

/// An elimination plan of `cs` whose methods are all still in `ws`, where `ws` has, for each
/// constraint of `cs`, some of its methods, is an elimination plan of `ws` once each method is
/// found at its place in `ws`.
pub proof fn lemma_plan_survives(n: nat, cs: Seq<ConstraintView>, ws: Seq<ConstraintView>, p: Seq<(usize, usize)>) -> (q: Seq<
    (usize, usize),
>)
    requires
        system_wf(n, cs),
        system_wf(n, ws),
        is_elimination_plan(cs, p),
        ws.len() == cs.len(),
        forall|c: int, m: MethodView| 0 <= c < cs.len() && #[trigger] ws[c].methods.contains(m) ==> cs[c].methods.contains(m),
        uses_present_methods(ws, cs, p),
        forall|c: int| 0 <= c < ws.len() ==> (#[trigger] ws[c]).methods.len() <= usize::MAX,
    ensures
        is_elimination_plan(ws, q),
        q.len() == p.len(),
        forall|k: int| 0 <= k < q.len() ==> (#[trigger] q[k]).0 == p[k].0,
        forall|k: int| 0 <= k < q.len() ==> #[trigger] chosen(ws, q[k]) == chosen(cs, p[k]),
{
    let q = Seq::new(p.len(), |k: int| (p[k].0, position_in(ws, cs, p, k) as usize));
    assert forall|k: int| 0 <= k < q.len() implies #[trigger] chosen(ws, q[k]) == chosen(cs, p[k]) && q[k].1 < ws[q[k].0 as int].methods.len() by {
        assert(ws[p[k].0 as int].methods.contains(chosen(cs, p[k])));
        let i = position_in(ws, cs, p, k);
        assert(0 <= i < ws[p[k].0 as int].methods.len());
        assert(ws[p[k].0 as int].methods.len() <= usize::MAX);
    }
    assert forall|k: int| 0 <= k < q.len() implies (#[trigger] q[k]).0 < ws.len() && q[k].1 < ws[q[k].0 as int].methods.len()
        && chosen(ws, q[k]).outputs.len() > 0 by {
        assert(chosen(ws, q[k]) == chosen(cs, p[k]));
    }
    assert forall|a: int, b: int| 0 <= a < b < q.len() implies (#[trigger] q[a]).0 != (#[trigger] q[b]).0 by {
        assert(p[a].0 != p[b].0);
    }
    assert forall|a: int, b: int, x: usize|
        0 <= a < b < q.len() && #[trigger] writes(ws, q[a], x) implies !ws[(#[trigger] q[b]).0 as int].variables.contains(x) by {
        assert(chosen(ws, q[a]) == chosen(cs, p[a]));
        assert(writes(cs, p[a], x));
        assert(!cs[p[b].0 as int].variables.contains(x));
        let c = p[b].0 as int;
        if ws[c].variables.contains(x) {
            assert(lists_used_variables(ws[c].variables, ws[c].methods));
            assert(used_by(ws[c].methods, x));
            let i = choose|i: int|
                #![trigger ws[c].methods[i].inputs.contains(x)]
                #![trigger ws[c].methods[i].outputs.contains(x)]
                0 <= i < ws[c].methods.len() && (ws[c].methods[i].inputs.contains(x) || ws[c].methods[i].outputs.contains(x));
            assert(ws[c].methods.contains(ws[c].methods[i]));
            assert(cs[c].methods.contains(ws[c].methods[i]));
            let j = choose|j: int| 0 <= j < cs[c].methods.len() && cs[c].methods[j] == ws[c].methods[i];
            assert(cs[c].methods[j].inputs.contains(x) || cs[c].methods[j].outputs.contains(x));
            assert(used_by(cs[c].methods, x));
            assert(lists_used_variables(cs[c].variables, cs[c].methods));
        }
    }
    q
}

/// No entry of `p`, a plan of `cs`, writes one of the first `k` variables of `ranking`.
pub open spec fn leaves_prefix(cs: Seq<ConstraintView>, p: Seq<(usize, usize)>, ranking: Seq<usize>, k: int) -> bool {
    forall|j: int| 0 <= j < k ==> #[trigger] plan_leaves(cs, p, ranking[j])
}

/// Some elimination plan of `cs` leaves the first `k` variables of `ranking` unwritten.
pub open spec fn prefix_keepable(cs: Seq<ConstraintView>, ranking: Seq<usize>, k: int) -> bool {
    exists|p: Seq<(usize, usize)>| #[trigger] is_elimination_plan(cs, p) && leaves_prefix(cs, p, ranking, k)
}

/// No entry of `plan` writes one of the first `k` variables of `ranking`.
pub open spec fn writes_none_of<M: Vertex>(plan: Seq<M>, ranking: Seq<usize>, k: int) -> bool {
    forall|j: int| 0 <= j < k ==> #[trigger] writes_nowhere_spec(plan, ranking[j])
}

/// Some elimination plan of `cs` leaves the variable ranked at step `i` unwritten, together with
/// each variable ranked before it that `plan` leaves unwritten.
pub open spec fn keepable_after<M: Vertex>(cs: Seq<ConstraintView>, ranking: Seq<usize>, i: int, plan: Seq<M>) -> bool {
    exists|p: Seq<(usize, usize)>|
        #[trigger] is_elimination_plan(cs, p) && plan_leaves(cs, p, ranking[i]) && forall|j: int|
            0 <= j < i && writes_nowhere_spec(plan, ranking[j]) ==> #[trigger] plan_leaves(cs, p, ranking[j])
}

/// The constraints of `ws` from `cs_len` on are stay constraints, constraint `c` added at step
/// `stay_of[c]`, before step `i`: each of its methods writes the variable ranked at that step, and
/// that variable can no longer stay.
spec fn stays_recorded(
    cs_len: int,
    ws: Seq<ConstraintView>,
    ranking: Seq<usize>,
    can_stay: Seq<bool>,
    stay_of: Seq<int>,
    i: int,
) -> bool {
    &&& stay_of.len() == ws.len()
    &&& 0 <= cs_len <= ws.len()
    &&& forall|c: int|
        cs_len <= c < ws.len() ==> 0 <= #[trigger] stay_of[c] < i && stay_of[c] < ranking.len() && ranking[stay_of[c]]
            < can_stay.len() && !can_stay[ranking[stay_of[c]] as int]
    &&& forall|c: int, m: MethodView|
        cs_len <= c < ws.len() && #[trigger] ws[c].methods.contains(m) ==> m.outputs == seq![ranking[stay_of[c]]]
}

/// Each variable below `n` that can no longer stay was ranked before step `i`, or is forced by `ws`.
spec fn locked_explained(n: nat, ws: Seq<ConstraintView>, ranking: Seq<usize>, can_stay: Seq<bool>, i: int) -> bool {
    forall|v: usize|
        v < n && !#[trigger] can_stay[v as int] ==> (exists|j: int| 0 <= j < i && #[trigger] ranking[j] == v) || forced(v, ws)
}

/// No entry of `plan` that is not a stay method writes the variable of a stay constraint
/// recorded in `stay_of` from `cs_len` on.
spec fn stays_respected<T: 'static>(
    plan: Seq<OwnedEnforcedConstraint<Method<T>>>,
    cs_len: int,
    stay_of: Seq<int>,
    ranking: Seq<usize>,
) -> bool {
    forall|c: int, k: int|
        cs_len <= c < stay_of.len() && 0 <= k < plan.len() && !plan[k].method_spec()@.is_stay ==> !(
        #[trigger] plan[k]).output_vars().contains(#[trigger] ranking[stay_of[c]])
}

/// The step of the loop of the planner that keeps a stay constraint on the variable ranked at
/// step `i`, and then prunes, keeps the records of the loop.
proof fn lemma_kept_stay(
    n: nat,
    cs_len: int,
    ranking: Seq<usize>,
    i: int,
    before: Seq<ConstraintView>,
    stay_view: ConstraintView,
    after: Seq<ConstraintView>,
    stay_before: Seq<bool>,
    stay_after: Seq<bool>,
    stay_of: Seq<int>,
)
    requires
        0 <= i < ranking.len(),
        ranking[i] < n,
        n <= stay_before.len(),
        stays_recorded(cs_len, before, ranking, stay_before, stay_of, i),
        locked_explained(n, before, ranking, stay_before, i),
        stay_before[ranking[i] as int],
        stay_view.methods.len() == 1,
        stay_view.methods[0].outputs == seq![ranking[i]],
        forall|y: usize| #[trigger] stay_view.variables.contains(y) ==> y == ranking[i],
        system_wf(n, before.push(stay_view)),
        system_wf(n, after),
        methods_pruned(before.push(stay_view), after),
        forall|c: int| 0 <= c < after.len() ==> (#[trigger] after[c]).methods.len() <= usize::MAX,
        before.len() < usize::MAX,
        stay_after.len() == stay_before.len(),
        forall|v: int| 0 <= v < stay_after.len() && #[trigger] stay_after[v] ==> stay_before[v],
        !stay_after[ranking[i] as int],
        forall|v: usize|
            v < n && stay_before[v as int] && !#[trigger] stay_after[v as int] && v != ranking[i] ==> forced(v, after),
    ensures
        stays_recorded(cs_len, after, ranking, stay_after, stay_of.push(i), i + 1),
        locked_explained(n, after, ranking, stay_after, i + 1),
{
    let with_stay = before.push(stay_view);
    let len = before.len() as int;
    let stay_of2 = stay_of.push(i);
    assert forall|c: int| cs_len <= c < after.len() implies 0 <= #[trigger] stay_of2[c] < i + 1 && stay_of2[c] < ranking.len()
        && ranking[stay_of2[c]] < stay_after.len() && !stay_after[ranking[stay_of2[c]] as int] by {
        if c < len {
            assert(stay_of2[c] == stay_of[c]);
        }
    }
    assert forall|c: int, m: MethodView| cs_len <= c < after.len() && #[trigger] after[c].methods.contains(m) implies m.outputs
        == seq![ranking[stay_of2[c]]] by {
        assert(with_stay[c].methods.contains(m));
        if c < len {
            assert(with_stay[c] == before[c]);
            assert(stay_of2[c] == stay_of[c]);
        } else {
            assert(m == stay_view.methods[0]);
        }
    }
    assert(stays_recorded(cs_len, after, ranking, stay_after, stay_of2, i + 1));
    assert forall|v: usize| v < n && !#[trigger] stay_after[v as int] implies (exists|j: int| 0 <= j < i + 1 && #[trigger] ranking[j] == v)
        || forced(v, after) by {
        if stay_before[v as int] {
            if v == ranking[i] {
                assert(ranking[i] == v);
            }
        } else if exists|j: int| 0 <= j < i && #[trigger] ranking[j] == v {
            let j = choose|j: int| 0 <= j < i && #[trigger] ranking[j] == v;
            assert(ranking[j] == v);
        } else {
            assert(forced(v, before));
            let c = choose|c: int| #[trigger] forces(before, c, v);
            assert forall|m: MethodView| #[trigger] with_stay[c].methods.contains(m) implies m.outputs.contains(v) by {
                assert(with_stay[c] == before[c]);
            }
            assert(forces(with_stay, c, v));
            lemma_forced_pruned(v, with_stay, after);
        }
    }
}

/// The step of the loop of the planner that rejects a stay constraint on the variable ranked at
/// step `i`, and then prunes, keeps the records of the loop.
proof fn lemma_rejected_stay(
    n: nat,
    cs_len: int,
    ranking: Seq<usize>,
    i: int,
    before: Seq<ConstraintView>,
    after: Seq<ConstraintView>,
    stay_before: Seq<bool>,
    stay_after: Seq<bool>,
    stay_of: Seq<int>,
)
    requires
        0 <= i < ranking.len(),
        stays_recorded(cs_len, before, ranking, stay_before, stay_of, i),
        locked_explained(n, before, ranking, stay_before, i),
        methods_pruned(before, after),
        stay_after.len() == stay_before.len(),
        forall|v: int| 0 <= v < stay_after.len() && #[trigger] stay_after[v] ==> stay_before[v],
        forall|v: usize|
            v < n && stay_before[v as int] && !#[trigger] stay_after[v as int] && v != ranking[i] ==> forced(v, after),
    ensures
        stays_recorded(cs_len, after, ranking, stay_after, stay_of, i + 1),
        locked_explained(n, after, ranking, stay_after, i + 1),
{
    assert forall|c: int, m: MethodView| cs_len <= c < after.len() && #[trigger] after[c].methods.contains(m) implies m.outputs
        == seq![ranking[stay_of[c]]] by {
        assert(before[c].methods.contains(m));
    }
    assert forall|v: usize| v < n && !#[trigger] stay_after[v as int] implies (exists|j: int| 0 <= j < i + 1 && #[trigger] ranking[j] == v)
        || forced(v, after) by {
        if stay_before[v as int] {
            if v == ranking[i] {
                assert(ranking[i] == v);
            }
        } else if exists|j: int| 0 <= j < i && #[trigger] ranking[j] == v {
            let j = choose|j: int| 0 <= j < i && #[trigger] ranking[j] == v;
            assert(ranking[j] == v);
        } else {
            lemma_forced_pruned(v, before, after);
        }
    }
}

/// `p` leaves unwritten the variable of each stay constraint of the planner (those from `cs_len`
/// on) that was added before step `j`.
spec fn leaves_stays_before(
    cs: Seq<ConstraintView>,
    p: Seq<(usize, usize)>,
    cs_len: int,
    ranking: Seq<usize>,
    stay_of: Seq<int>,
    j: int,
) -> bool {
    forall|c: int| cs_len <= c < stay_of.len() && stay_of[c] < j ==> #[trigger] plan_leaves(cs, p, ranking[stay_of[c]])
}

/// Some stay constraint of the planner keeps `v`.
spec fn has_stay(cs_len: int, ranking: Seq<usize>, stay_of: Seq<int>, v: usize) -> bool {
    exists|c: int| cs_len <= c < stay_of.len() && #[trigger] ranking[stay_of[c]] == v
}

/// Some elimination plan of `cs` leaves the variable ranked at step `j` unwritten, together with
/// the variables of the stay constraints added before that step.
spec fn stay_possible(cs: Seq<ConstraintView>, ranking: Seq<usize>, cs_len: int, stay_of: Seq<int>, j: int) -> bool {
    exists|p: Seq<(usize, usize)>|
        #[trigger] is_elimination_plan(cs, p) && plan_leaves(cs, p, ranking[j]) && leaves_stays_before(cs, p, cs_len, ranking, stay_of, j)
}

/// Each variable ranked before step `i` whose stay was possible at its step has a stay constraint.
spec fn greedy_kept(cs: Seq<ConstraintView>, ranking: Seq<usize>, cs_len: int, stay_of: Seq<int>, i: int) -> bool {
    forall|j: int|
        0 <= j < i && #[trigger] stay_possible(cs, ranking, cs_len, stay_of, j) ==> has_stay(cs_len, ranking, stay_of, ranking[j])
}

/// Each entry of `q`, a plan of `ws`, that enforces one of the first `cs_len` constraints writes
/// only variables that `p`, a plan of `cs`, writes too.
spec fn mirrors(cs: Seq<ConstraintView>, p: Seq<(usize, usize)>, cs_len: int, ws: Seq<ConstraintView>, q: Seq<(usize, usize)>) -> bool {
    forall|kk: int, x: usize| 0 <= kk < q.len() && q[kk].0 < cs_len && #[trigger] writes(ws, q[kk], x) ==> !plan_leaves(cs, p, x)
}

/// Each elimination plan of `cs` that leaves the variables of the stay constraints added before
/// step `i` unwritten has a counterpart among the elimination plans of the working constraints `ws`.
spec fn plans_survive(cs: Seq<ConstraintView>, ws: Seq<ConstraintView>, cs_len: int, ranking: Seq<usize>, stay_of: Seq<int>, i: int) -> bool {
    forall|p: Seq<(usize, usize)>|
        #[trigger] is_elimination_plan(cs, p) && leaves_stays_before(cs, p, cs_len, ranking, stay_of, i) ==> exists|
            q: Seq<(usize, usize)>,
        | #[trigger] is_elimination_plan(ws, q) && mirrors(cs, p, cs_len, ws, q)
}

/// A variable that a stay constraint does not keep, and that `p` leaves unwritten, is left
/// unwritten by a counterpart `q` of `p`.
proof fn lemma_mirror_leaves(
    cs: Seq<ConstraintView>,
    p: Seq<(usize, usize)>,
    cs_len: int,
    ws: Seq<ConstraintView>,
    q: Seq<(usize, usize)>,
    ranking: Seq<usize>,
    can_stay: Seq<bool>,
    stay_of: Seq<int>,
    i: int,
    x: usize,
)
    requires
        mirrors(cs, p, cs_len, ws, q),
        is_elimination_plan(ws, q),
        stays_recorded(cs_len, ws, ranking, can_stay, stay_of, i),
        plan_leaves(cs, p, x),
        !has_stay(cs_len, ranking, stay_of, x),
    ensures
        plan_leaves(ws, q, x),
{
    assert forall|kk: int| 0 <= kk < q.len() implies !#[trigger] writes(ws, q[kk], x) by {
        if q[kk].0 >= cs_len {
            let c = q[kk].0 as int;
            assert(ws[c].methods.contains(chosen(ws, q[kk])));
            assert(chosen(ws, q[kk]).outputs == seq![ranking[stay_of[c]]]);
            if writes(ws, q[kk], x) {
                assert(seq![ranking[stay_of[c]]].contains(x));
                assert(ranking[stay_of[c]] == x);
                assert(has_stay(cs_len, ranking, stay_of, x));
            }
        }
    }
}

/// A variable that can still stay has no stay constraint.
proof fn lemma_no_stay_yet(cs_len: int, ws: Seq<ConstraintView>, ranking: Seq<usize>, can_stay: Seq<bool>, stay_of: Seq<int>, i: int, v: usize)
    requires
        stays_recorded(cs_len, ws, ranking, can_stay, stay_of, i),
        v < can_stay.len(),
        can_stay[v as int],
    ensures
        !has_stay(cs_len, ranking, stay_of, v),
{
    if has_stay(cs_len, ranking, stay_of, v) {
        let c = choose|c: int| cs_len <= c < stay_of.len() && #[trigger] ranking[stay_of[c]] == v;
        assert(!can_stay[ranking[stay_of[c]] as int]);
    }
}

/// Plans that leave the stays added before step `i + 1` unwritten also leave those added before
/// step `i` unwritten.
proof fn lemma_survive_next(cs: Seq<ConstraintView>, ws: Seq<ConstraintView>, cs_len: int, ranking: Seq<usize>, stay_of: Seq<int>, i: int)
    requires
        plans_survive(cs, ws, cs_len, ranking, stay_of, i),
    ensures
        plans_survive(cs, ws, cs_len, ranking, stay_of, i + 1),
{
    assert forall|p: Seq<(usize, usize)>|
        #[trigger] is_elimination_plan(cs, p) && leaves_stays_before(cs, p, cs_len, ranking, stay_of, i + 1) implies exists|
            q: Seq<(usize, usize)>,
        | #[trigger] is_elimination_plan(ws, q) && mirrors(cs, p, cs_len, ws, q) by {
        assert forall|c: int| cs_len <= c < stay_of.len() && stay_of[c] < i implies #[trigger] plan_leaves(cs, p, ranking[stay_of[c]]) by {}
        assert(leaves_stays_before(cs, p, cs_len, ranking, stay_of, i));
    }
}

/// Skipping the variable ranked at step `i`, which can no longer stay, keeps each variable whose
/// stay was possible kept.
proof fn lemma_skip_greedy(
    n: nat,
    cs: Seq<ConstraintView>,
    cs_len: int,
    ranking: Seq<usize>,
    i: int,
    ws: Seq<ConstraintView>,
    can_stay: Seq<bool>,
    stay_of: Seq<int>,
)
    requires
        0 <= i < ranking.len(),
        ranking[i] < n,
        n <= can_stay.len(),
        !can_stay[ranking[i] as int],
        stays_recorded(cs_len, ws, ranking, can_stay, stay_of, i),
        locked_explained(n, ws, ranking, can_stay, i),
        greedy_kept(cs, ranking, cs_len, stay_of, i),
        plans_survive(cs, ws, cs_len, ranking, stay_of, i),
    ensures
        greedy_kept(cs, ranking, cs_len, stay_of, i + 1),
{
    let v = ranking[i];
    assert forall|j: int|
        0 <= j < i + 1 && #[trigger] stay_possible(cs, ranking, cs_len, stay_of, j) implies has_stay(cs_len, ranking, stay_of, ranking[j]) by {
        if j == i && !has_stay(cs_len, ranking, stay_of, v) {
            let p = choose|p: Seq<(usize, usize)>|
                #[trigger] is_elimination_plan(cs, p) && plan_leaves(cs, p, ranking[i]) && leaves_stays_before(cs, p, cs_len, ranking, stay_of, i);
            if exists|t: int| 0 <= t < i && #[trigger] ranking[t] == v {
                let t = choose|t: int| 0 <= t < i && #[trigger] ranking[t] == v;
                assert forall|c: int| cs_len <= c < stay_of.len() && stay_of[c] < t implies #[trigger] plan_leaves(cs, p, ranking[stay_of[c]]) by {}
                assert(leaves_stays_before(cs, p, cs_len, ranking, stay_of, t));
                assert(stay_possible(cs, ranking, cs_len, stay_of, t));
            } else {
                assert(forced(v, ws));
                let c = choose|c: int| #[trigger] forces(ws, c, v);
                let q = choose|q: Seq<(usize, usize)>| #[trigger] is_elimination_plan(ws, q) && mirrors(cs, p, cs_len, ws, q);
                crate::simple_planner::lemma_elimination_plan_covers(ws, q, c);
                let a = choose|a: int| 0 <= a < q.len() && (#[trigger] q[a]).0 == c;
                assert(ws[c].methods.contains(chosen(ws, q[a])));
                assert(writes(ws, q[a], v));
                if c >= cs_len {
                    assert(chosen(ws, q[a]).outputs == seq![ranking[stay_of[c]]]);
                    assert(seq![ranking[stay_of[c]]].contains(v));
                    assert(ranking[stay_of[c]] == v);
                }
            }
        }
    }
}

/// Adding a stay constraint on the variable ranked at step `i` keeps each variable whose stay was
/// possible kept.
proof fn lemma_kept_greedy(cs: Seq<ConstraintView>, cs_len: int, ranking: Seq<usize>, i: int, stay_of: Seq<int>)
    requires
        0 <= i < ranking.len(),
        0 <= cs_len <= stay_of.len(),
        forall|c: int| cs_len <= c < stay_of.len() ==> #[trigger] stay_of[c] < i,
        greedy_kept(cs, ranking, cs_len, stay_of, i),
    ensures
        greedy_kept(cs, ranking, cs_len, stay_of.push(i), i + 1),
{
    let s2 = stay_of.push(i);
    assert forall|j: int|
        0 <= j < i + 1 && #[trigger] stay_possible(cs, ranking, cs_len, s2, j) implies has_stay(cs_len, ranking, s2, ranking[j]) by {
        if j == i {
            let c = stay_of.len() as int;
            assert(s2[c] == i);
            assert(ranking[s2[c]] == ranking[j]);
        } else {
            let p = choose|p: Seq<(usize, usize)>|
                #[trigger] is_elimination_plan(cs, p) && plan_leaves(cs, p, ranking[j]) && leaves_stays_before(cs, p, cs_len, ranking, s2, j);
            assert forall|c: int| cs_len <= c < stay_of.len() && stay_of[c] < j implies #[trigger] plan_leaves(cs, p, ranking[stay_of[c]]) by {
                assert(s2[c] == stay_of[c]);
            }
            assert(leaves_stays_before(cs, p, cs_len, ranking, stay_of, j));
            assert(stay_possible(cs, ranking, cs_len, stay_of, j));
            let c = choose|c: int| cs_len <= c < stay_of.len() && #[trigger] ranking[stay_of[c]] == ranking[j];
            assert(s2[c] == stay_of[c]);
            assert(ranking[s2[c]] == ranking[j]);
        }
    }
}

/// Rejecting a stay constraint on the variable ranked at step `i`, with which the working
/// constraints have no elimination plan, keeps each variable whose stay was possible kept: that
/// stay was not possible.
proof fn lemma_rejected_greedy(
    cs: Seq<ConstraintView>,
    cs_len: int,
    ranking: Seq<usize>,
    i: int,
    ws: Seq<ConstraintView>,
    stay_view: ConstraintView,
    can_stay: Seq<bool>,
    stay_of: Seq<int>,
)
    requires
        0 <= i < ranking.len(),
        ranking[i] < can_stay.len(),
        can_stay[ranking[i] as int],
        stays_recorded(cs_len, ws, ranking, can_stay, stay_of, i),
        greedy_kept(cs, ranking, cs_len, stay_of, i),
        plans_survive(cs, ws, cs_len, ranking, stay_of, i),
        ws.len() < usize::MAX,
        stay_view.methods.len() == 1,
        stay_view.methods[0].outputs == seq![ranking[i]],
        forall|y: usize| #[trigger] stay_view.variables.contains(y) ==> y == ranking[i],
        forall|p: Seq<(usize, usize)>| !#[trigger] is_elimination_plan(ws.push(stay_view), p),
    ensures
        greedy_kept(cs, ranking, cs_len, stay_of, i + 1),
{
    lemma_no_stay_yet(cs_len, ws, ranking, can_stay, stay_of, i, ranking[i]);
    assert forall|j: int|
        0 <= j < i + 1 && #[trigger] stay_possible(cs, ranking, cs_len, stay_of, j) implies has_stay(cs_len, ranking, stay_of, ranking[j]) by {
        if j == i {
            let p = choose|p: Seq<(usize, usize)>|
                #[trigger] is_elimination_plan(cs, p) && plan_leaves(cs, p, ranking[i]) && leaves_stays_before(cs, p, cs_len, ranking, stay_of, i);
            let q = choose|q: Seq<(usize, usize)>| #[trigger] is_elimination_plan(ws, q) && mirrors(cs, p, cs_len, ws, q);
            lemma_mirror_leaves(cs, p, cs_len, ws, q, ranking, can_stay, stay_of, i, ranking[i]);
            lemma_stay_appended(ws, q, ranking[i], stay_view);
            assert(is_elimination_plan(ws.push(stay_view), q.push((ws.len() as usize, 0usize))));
        }
    }
}

/// Keeping a stay constraint on the variable ranked at step `i`, which can still stay, and then
/// pruning, keeps a counterpart of each elimination plan of `cs` that also leaves that variable
/// unwritten.
proof fn lemma_kept_survives(
    n: nat,
    cs: Seq<ConstraintView>,
    cs_len: int,
    ranking: Seq<usize>,
    i: int,
    before: Seq<ConstraintView>,
    stay_view: ConstraintView,
    after: Seq<ConstraintView>,
    can_stay: Seq<bool>,
    stay_of: Seq<int>,
)
    requires
        0 <= i < ranking.len(),
        ranking[i] < can_stay.len(),
        can_stay[ranking[i] as int],
        stays_recorded(cs_len, before, ranking, can_stay, stay_of, i),
        plans_survive(cs, before, cs_len, ranking, stay_of, i),
        before.len() < usize::MAX,
        stay_view.methods.len() == 1,
        stay_view.methods[0].outputs == seq![ranking[i]],
        forall|y: usize| #[trigger] stay_view.variables.contains(y) ==> y == ranking[i],
        system_wf(n, before.push(stay_view)),
        system_wf(n, after),
        methods_pruned(before.push(stay_view), after),
        forall|c: int| 0 <= c < after.len() ==> (#[trigger] after[c]).methods.len() <= usize::MAX,
        forall|reference: Seq<ConstraintView>, p: Seq<(usize, usize)>|
            #![trigger uses_present_methods(after, reference, p)]
            system_wf(n, reference) && is_elimination_plan(reference, p) && reference.len() == before.len() + 1
                && uses_present_methods(before.push(stay_view), reference, p) ==> uses_present_methods(after, reference, p),
    ensures
        plans_survive(cs, after, cs_len, ranking, stay_of.push(i), i + 1),
{
    let with_stay = before.push(stay_view);
    let s2 = stay_of.push(i);
    lemma_no_stay_yet(cs_len, before, ranking, can_stay, stay_of, i, ranking[i]);
    assert forall|p: Seq<(usize, usize)>|
        #[trigger] is_elimination_plan(cs, p) && leaves_stays_before(cs, p, cs_len, ranking, s2, i + 1) implies exists|
            q2: Seq<(usize, usize)>,
        | #[trigger] is_elimination_plan(after, q2) && mirrors(cs, p, cs_len, after, q2) by {
        assert forall|c: int| cs_len <= c < stay_of.len() && stay_of[c] < i implies #[trigger] plan_leaves(cs, p, ranking[stay_of[c]]) by {
            assert(s2[c] == stay_of[c]);
        }
        assert(leaves_stays_before(cs, p, cs_len, ranking, stay_of, i));
        let c_new = stay_of.len() as int;
        assert(s2[c_new] == i);
        assert(plan_leaves(cs, p, ranking[s2[c_new]]));
        let q = choose|q: Seq<(usize, usize)>| #[trigger] is_elimination_plan(before, q) && mirrors(cs, p, cs_len, before, q);
        lemma_mirror_leaves(cs, p, cs_len, before, q, ranking, can_stay, stay_of, i, ranking[i]);
        lemma_stay_appended(before, q, ranking[i], stay_view);
        let q1 = q.push((before.len() as usize, 0usize));
        crate::pruner::lemma_plan_uses_own_methods(with_stay, q1);
        assert(uses_present_methods(after, with_stay, q1));
        let q2 = lemma_plan_survives(n, with_stay, after, q1);
        assert forall|kk: int, x: usize| 0 <= kk < q2.len() && q2[kk].0 < cs_len && #[trigger] writes(after, q2[kk], x) implies !plan_leaves(
            cs,
            p,
            x,
        ) by {
            assert(chosen(after, q2[kk]) == chosen(with_stay, q1[kk]));
            assert(q2[kk].0 == q1[kk].0);
            if kk < q.len() {
                assert(q1[kk] == q[kk]);
                assert(with_stay[q[kk].0 as int] == before[q[kk].0 as int]);
                assert(writes(before, q[kk], x));
            } else {
                assert(q1[kk].0 == before.len());
            }
        }
        assert(mirrors(cs, p, cs_len, after, q2));
    }
}

/// Pruning the working constraints keeps a counterpart of each elimination plan of `cs` that has one.
proof fn lemma_pruned_survives(
    n: nat,
    cs: Seq<ConstraintView>,
    cs_len: int,
    ranking: Seq<usize>,
    i: int,
    before: Seq<ConstraintView>,
    after: Seq<ConstraintView>,
    stay_of: Seq<int>,
)
    requires
        plans_survive(cs, before, cs_len, ranking, stay_of, i),
        system_wf(n, before),
        system_wf(n, after),
        methods_pruned(before, after),
        forall|c: int| 0 <= c < after.len() ==> (#[trigger] after[c]).methods.len() <= usize::MAX,
        forall|reference: Seq<ConstraintView>, p: Seq<(usize, usize)>|
            #![trigger uses_present_methods(after, reference, p)]
            system_wf(n, reference) && is_elimination_plan(reference, p) && reference.len() == before.len()
                && uses_present_methods(before, reference, p) ==> uses_present_methods(after, reference, p),
    ensures
        plans_survive(cs, after, cs_len, ranking, stay_of, i + 1),
{
    lemma_survive_next(cs, before, cs_len, ranking, stay_of, i);
    assert forall|p: Seq<(usize, usize)>|
        #[trigger] is_elimination_plan(cs, p) && leaves_stays_before(cs, p, cs_len, ranking, stay_of, i + 1) implies exists|
            q2: Seq<(usize, usize)>,
        | #[trigger] is_elimination_plan(after, q2) && mirrors(cs, p, cs_len, after, q2) by {
        let q = choose|q: Seq<(usize, usize)>| #[trigger] is_elimination_plan(before, q) && mirrors(cs, p, cs_len, before, q);
        crate::pruner::lemma_plan_uses_own_methods(before, q);
        assert(uses_present_methods(after, before, q));
        let q2 = lemma_plan_survives(n, before, after, q);
        assert forall|kk: int, x: usize| 0 <= kk < q2.len() && q2[kk].0 < cs_len && #[trigger] writes(after, q2[kk], x) implies !plan_leaves(
            cs,
            p,
            x,
        ) by {
            assert(chosen(after, q2[kk]) == chosen(before, q[kk]));
            assert(writes(before, q[kk], x));
        }
        assert(mirrors(cs, p, cs_len, after, q2));
    }
}

/// Owned copies of the entries of the plan `p` of `constraints`.
fn owned_plan<T: 'static>(constraints: &[Constraint<T>], p: &Vec<(usize, usize)>) -> (r: Vec<OwnedEnforcedConstraint<Method<T>>>)
    requires
        is_elimination_plan(constraint_views(constraints@), p@),
    ensures
        r@.len() == p@.len(),
        forall|k: int|
            0 <= k < p@.len() ==> (#[trigger] r@[k]).name_spec() == constraint_views(constraints@)[p@[k].0 as int].name
                && r@[k].method_spec()@ == chosen(constraint_views(constraints@), p@[k]),
{
    let ghost cs = constraint_views(constraints@);
    let mut r: Vec<OwnedEnforcedConstraint<Method<T>>> = Vec::new();
    let mut k: usize = 0;
    while k < p.len()
        invariant
            cs == constraint_views(constraints@),
            is_elimination_plan(cs, p@),
            k <= p@.len(),
            r@.len() == k,
            forall|j: int|
                0 <= j < k ==> (#[trigger] r@[j]).name_spec() == cs[p@[j].0 as int].name && r@[j].method_spec()@ == chosen(
                    cs,
                    p@[j],
                ),
        decreases p@.len() - k,
    {
        let (ci, mi) = p[k];
        assert(p@[k as int].0 < cs.len());
        let constraint = &constraints[ci];
        assert(cs[ci as int] == constraint@);
        let methods = constraint.methods();
        assert(crate::constraint::method_views(methods@)[mi as int] == methods@[mi as int]@);
        r.push(OwnedEnforcedConstraint { name: constraint.name().to_owned(), method: methods[mi].duplicate() });
        k += 1;
    }
    r
}

/// A plan that the simple planner finds for the working constraints is a candidate plan.
proof fn lemma_candidate_from_plan<T: 'static>(
    n: nat,
    cs: Seq<ConstraintView>,
    cv: Seq<ConstraintView>,
    p: Seq<(usize, usize)>,
    plan: Seq<OwnedEnforcedConstraint<Method<T>>>,
)
    requires
        system_wf(n, cv),
        working_constraints(cs, cv),
        is_elimination_plan(cv, p),
        plan.len() == p.len(),
        forall|k: int|
            0 <= k < p.len() ==> (#[trigger] plan[k]).name_spec() == cv[p[k].0 as int].name && plan[k].method_spec()@
                == chosen(cv, p[k]),
    ensures
        candidate(cs, plan, p.map_values(|e: (usize, usize)| e.0 as int)),
{
    let map = p.map_values(|e: (usize, usize)| e.0 as int);
    assert forall|k: int| 0 <= k < plan.len() implies 0 <= #[trigger] map[k] && (map[k] < cs.len() ==> enforces(
        cs,
        plan[k],
        map[k],
    )) && (map[k] >= cs.len() ==> plan[k].method_spec()@.is_stay) by {
        let c = p[k].0 as int;
        assert(map[k] == c);
        assert(cv[c].methods.contains(cv[c].methods[p[k].1 as int]));
    }
    // every constraint of the working set is enforced, so every constraint of the component is
    assert(crate::vertex::is_index_permutation(map, cv.len() as int)) by {
        assert forall|a: int, b: int| 0 <= a < b < map.len() implies map[a] != map[b] by {
            assert(p[a].0 != p[b].0);
        }
    }
    assert forall|c: int| 0 <= c < cs.len() implies #[trigger] maps_to(map, c) by {
        crate::vertex::lemma_permutation_covers(map, cv.len() as int, c);
    }
    assert forall|a: int, b: int| 0 <= a < map.len() && 0 <= b < map.len() && a != b implies #[trigger] map[a] != #[trigger] map[b] by {
        if a < b {
            assert(p[a].0 != p[b].0);
        } else {
            assert(p[b].0 != p[a].0);
        }
    }
    assert forall|a: int, b: int, x: usize|
        0 <= a < b < plan.len() && #[trigger] plan[a].output_vars().contains(x) implies !(#[trigger] plan[b]).input_vars().contains(
        x,
    ) && !plan[b].output_vars().contains(x) by {
        assert(writes(cv, p[a], x));
        assert(!cv[p[b].0 as int].variables.contains(x));
        let c = cv[p[b].0 as int];
        assert(lists_used_variables(cv[p[b].0 as int].variables, cv[p[b].0 as int].methods));
        if plan[b].input_vars().contains(x) {
            assert(c.methods[p[b].1 as int].inputs.contains(x));
            assert(crate::constraint::used_by(c.methods, x));
        }
        if plan[b].output_vars().contains(x) {
            assert(c.methods[p[b].1 as int].outputs.contains(x));
            assert(crate::constraint::used_by(c.methods, x));
        }
    }
}

/// Whether no entry of `plan` writes `var`.
fn writes_nowhere<T: 'static>(plan: &[OwnedEnforcedConstraint<Method<T>>], var: usize) -> (r: bool)
    ensures
        r == forall|k: int| 0 <= k < plan@.len() ==> !(#[trigger] plan@[k]).output_vars().contains(var),
{
    let mut k: usize = 0;
    while k < plan.len()
        invariant
            k <= plan@.len(),
            forall|j: int| 0 <= j < k ==> !(#[trigger] plan@[j]).output_vars().contains(var),
        decreases plan@.len() - k,
    {
        if crate::constraint::contains_index(plan[k].method().outputs(), var) {
            return false;
        }
        k += 1;
    }
    true
}

/// The entries of a candidate plan that are not stay methods.
fn filter_non_stays<T: 'static>(
    b: &Vec<OwnedEnforcedConstraint<Method<T>>>,
    Ghost(cs): Ghost<Seq<ConstraintView>>,
    Ghost(bmap): Ghost<Seq<int>>,
) -> (r: Vec<OwnedEnforcedConstraint<Method<T>>>)
    requires
        candidate(cs, b@, bmap),
    ensures
        exists|fmap: Seq<int>| #[trigger] plan_enforces(cs, r@, fmap) && later_untouched(r@),
        forall|x: usize|
            (forall|k: int| 0 <= k < b@.len() && !b@[k].method_spec()@.is_stay ==> !(#[trigger] b@[k]).output_vars().contains(x))
                ==> #[trigger] writes_nowhere_spec(r@, x),
{
    let mut fb: Vec<OwnedEnforcedConstraint<Method<T>>> = Vec::new();
    let ghost mut sel: Seq<int> = Seq::empty();
    let mut i: usize = 0;
    while i < b.len()
        invariant
            candidate(cs, b@, bmap),
            i <= b@.len(),
            fb@.len() == sel.len(),
            forall|j: int| 0 <= j < sel.len() ==> 0 <= #[trigger] sel[j] < i,
            forall|j: int|
                0 <= j < sel.len() ==> (#[trigger] fb@[j]).name_spec() == b@[sel[j]].name_spec() && fb@[j].method_spec()@
                    == b@[sel[j]].method_spec()@ && !b@[sel[j]].method_spec()@.is_stay,
            forall|j1: int, j2: int| 0 <= j1 < j2 < sel.len() ==> #[trigger] sel[j1] < #[trigger] sel[j2],
            forall|k: int| 0 <= k < i && !(#[trigger] b@[k]).method_spec()@.is_stay ==> maps_to(sel, k),
        decreases b@.len() - i,
    {
        if !b[i].method().is_stay() {
            fb.push(b[i].duplicate());
            proof {
                let old_sel = sel;
                sel = sel.push(i as int);
                assert(sel[sel.len() - 1] == i);
                assert forall|k: int| 0 <= k < i + 1 && !(#[trigger] b@[k]).method_spec()@.is_stay implies maps_to(sel, k) by {
                    if k == i {
                        assert(sel[sel.len() - 1] == k);
                    } else {
                        assert(maps_to(old_sel, k));
                        let j = choose|j: int| 0 <= j < old_sel.len() && #[trigger] old_sel[j] == k;
                        assert(sel[j] == k);
                    }
                }
            }
        }
        i += 1;
    }
    let ghost fmap = sel.map_values(|s: int| bmap[s]);
    proof {
        assert forall|k: int| 0 <= k < fb@.len() implies enforces(cs, #[trigger] fb@[k], fmap[k]) && !fb@[k].method_spec()@.is_stay by {
            let s = sel[k];
            assert(0 <= bmap[s]);
        }
        assert forall|a: int, b2: int| 0 <= a < fmap.len() && 0 <= b2 < fmap.len() && a != b2 implies #[trigger] fmap[a] != #[trigger] fmap[b2] by {
            if a < b2 {
                assert(sel[a] < sel[b2]);
            } else {
                assert(sel[b2] < sel[a]);
            }
        }
        assert forall|c: int| 0 <= c < cs.len() implies #[trigger] maps_to(fmap, c) || has_stay_method(cs[c].methods) by {
            assert(maps_to(bmap, c));
            let k = choose|k: int| 0 <= k < bmap.len() && #[trigger] bmap[k] == c;
            if !b@[k].method_spec()@.is_stay {
                assert(maps_to(sel, k));
                let j = choose|j: int| 0 <= j < sel.len() && #[trigger] sel[j] == k;
                assert(fmap[j] == c);
            } else {
                assert(enforces(cs, b@[k], c));
                assert(cs[c].methods.contains(b@[k].method_spec()@));
            }
        }
        assert forall|a: int, b2: int, x: usize|
            0 <= a < b2 < fb@.len() && #[trigger] fb@[a].output_vars().contains(x) implies !(#[trigger] fb@[b2]).input_vars().contains(
            x,
        ) && !fb@[b2].output_vars().contains(x) by {
            assert(sel[a] < sel[b2]);
            assert(b@[sel[a]].output_vars().contains(x));
        }
        assert forall|x: usize|
            (forall|k: int| 0 <= k < b@.len() && !b@[k].method_spec()@.is_stay ==> !(#[trigger] b@[k]).output_vars().contains(x))
                implies #[trigger] writes_nowhere_spec(fb@, x) by {
            assert forall|j: int| 0 <= j < fb@.len() implies !(#[trigger] fb@[j]).output_vars().contains(x) by {
                let k = sel[j];
                assert(fb@[j].name_spec() == b@[sel[j]].name_spec() && fb@[j].method_spec()@ == b@[sel[j]].method_spec()@
                    && !b@[sel[j]].method_spec()@.is_stay);
                assert(0 <= k < b@.len());
                assert(!b@[k].output_vars().contains(x));
            }
        }
        assert(plan_enforces(cs, fb@, fmap));
    }
    fb
}

/// Finds a plan for the component that enforces each of its constraints with one of its methods,
/// trying to keep the values of the variables in the order of `ranking`: for each variable in
/// turn, a stay constraint on it is added to the system, and kept if the simple planner still
/// finds a plan, while the pruner removes the methods that can no longer be selected.
///
/// The plan does not hold stay methods, and lists its entries in an order in which they can run:
/// no entry writes a variable that an earlier entry reads, and no two entries write the same variable.
/// It fails with [`PlanError::Overconstrained`] only when the constraints have no elimination plan
/// (the pruner only removes methods that no elimination plan selects), so it succeeds whenever
/// they have one. When some elimination plan leaves the first `k` variables of the ranking
/// unwritten, the plan found does not write them either. More generally, the ranked variables are
/// kept greedily: the plan found leaves a ranked variable unwritten whenever some elimination plan
/// leaves it unwritten together with each variable ranked before it that the plan found leaves
/// unwritten ([`keepable_after`]).
#[verifier::rlimit(40)]
pub fn hierarchical_planner<T: 'static>(component: &Component<T>, ranking: &[usize]) -> (r: Result<
    OwnedPlan<Method<T>>,
    PlanError,
>)
    requires
        component.wf(),
        component.n_vars() <= ranking@.len(),
        forall|k: int| 0 <= k < ranking@.len() ==> #[trigger] ranking@[k] < component.n_vars(),
    ensures
        r matches Ok(plan) ==> exists|map: Seq<int>|
            #[trigger] plan_enforces(component.constraints_view(), plan@, map) && runs_in_order(plan@) && writes_disjoint(
                plan@,
            ),
        r is Err ==> forall|p: Seq<(usize, usize)>| !#[trigger] is_elimination_plan(component.constraints_view(), p),
        forall|k: int|
            0 <= k <= ranking@.len() && #[trigger] prefix_keepable(component.constraints_view(), ranking@, k) ==> (r matches Ok(
                plan,
            ) && writes_none_of(plan@, ranking@, k)),
        r matches Ok(plan) ==> forall|i: int|
            0 <= i < ranking@.len() && #[trigger] keepable_after(component.constraints_view(), ranking@, i, plan@)
                ==> writes_nowhere_spec(plan@, ranking@[i]),
{
    let n = component.n_variables();
    let ghost cs = component.constraints_view();

    // The initial solution with no stay constraints.
    let mut best_solution: Option<OwnedPlan<Method<T>>> = None;
    let ghost mut best_map: Seq<int> = Seq::empty();

    // Copy the constraints to be able to modify them
    let mut constraints: Vec<Constraint<T>> = Vec::new();
    let given = component.constraints();
    let mut ci: usize = 0;
    while ci < given.len()
        invariant
            ci <= given@.len(),
            constraint_views(given@) == cs,
            constraints@.len() == ci,
            forall|c: int| 0 <= c < ci ==> (#[trigger] constraints@[c])@ == cs[c],
        decreases given@.len() - ci,
    {
        constraints.push(given[ci].duplicate());
        ci += 1;
    }
    assert(constraint_views(constraints@) =~= cs);

    // Lock variables that can't have a stay constraint
    let mut can_stay: Vec<bool> = Vec::new();
    let mut i: usize = 0;
    while i < ranking.len()
        invariant
            i <= ranking@.len(),
            can_stay@.len() == i,
            forall|j: int| 0 <= j < i ==> #[trigger] can_stay@[j],
        decreases ranking@.len() - i,
    {
        can_stay.push(true);
        i += 1;
    }
    // Create a map from variables to constraints
    let mut var_to_constraint = crate::pruner::create_var_to_constraint(component);
    proof {
        assert forall|p: Seq<(usize, usize)>| #[trigger] is_elimination_plan(cs, p) implies uses_present_methods(
            constraint_views(constraints@),
            cs,
            p,
        ) by {
            crate::pruner::lemma_plan_uses_own_methods(cs, p);
        }
    }

    // The step at which each stay constraint was added
    let ghost mut stay_of: Seq<int> = Seq::new(cs.len(), |c: int| 0);
    proof {
        assert forall|p: Seq<(usize, usize)>|
            #[trigger] is_elimination_plan(cs, p) && leaves_stays_before(cs, p, cs.len() as int, ranking@, stay_of, 0) implies exists|
                q: Seq<(usize, usize)>,
            | #[trigger] is_elimination_plan(constraint_views(constraints@), q) && mirrors(
                cs,
                p,
                cs.len() as int,
                constraint_views(constraints@),
                q,
            ) by {
            assert(is_elimination_plan(constraint_views(constraints@), p));
        }
    }

    // Try to find the best combination of stay constraints that works (lexicographic order)
    let mut i: usize = 0;
    while i < ranking.len()
        invariant
            n == component.n_vars(),
            cs == component.constraints_view(),
            system_wf(n as nat, cs),
            n <= ranking@.len(),
            forall|k: int| 0 <= k < ranking@.len() ==> #[trigger] ranking@[k] < n,
            i <= ranking@.len(),
            system_wf(n as nat, constraint_views(constraints@)),
            working_constraints(cs, constraint_views(constraints@)),
            var_map_wf(var_to_constraint@, n as nat, constraints@.len() as nat),
            can_stay@.len() == ranking@.len(),
            best_solution matches Some(b) ==> candidate(cs, b@, best_map),
            best_solution is None ==> constraints@.len() == cs.len(),
            best_solution is None ==> forall|p: Seq<(usize, usize)>|
                #[trigger] is_elimination_plan(cs, p) ==> uses_present_methods(constraint_views(constraints@), cs, p),
            i == 0 ==> best_solution is None && constraint_views(constraints@) == cs && forall|v: int|
                0 <= v < can_stay@.len() ==> #[trigger] can_stay@[v],
            stays_recorded(cs.len() as int, constraint_views(constraints@), ranking@, can_stay@, stay_of, i as int),
            locked_explained(n as nat, constraint_views(constraints@), ranking@, can_stay@, i as int),
            greedy_kept(cs, ranking@, cs.len() as int, stay_of, i as int),
            plans_survive(cs, constraint_views(constraints@), cs.len() as int, ranking@, stay_of, i as int),
            stay_of.len() > cs.len() ==> best_solution is Some,
            best_solution matches Some(b) ==> stays_respected(b@, cs.len() as int, stay_of, ranking@),
        decreases ranking@.len() - i,
    {
        let var_id = ranking[i];
        if !can_stay[var_id] {
            proof {
                let ws = constraint_views(constraints@);
                lemma_skip_greedy(n as nat, cs, cs.len() as int, ranking@, i as int, ws, can_stay@, stay_of);
                lemma_survive_next(cs, ws, cs.len() as int, ranking@, stay_of, i as int);
                assert forall|v: usize| v < n && !#[trigger] can_stay@[v as int] implies (exists|j: int|
                    0 <= j < i + 1 && #[trigger] ranking@[j] == v) || forced(v, ws) by {
                    if exists|j: int| 0 <= j < i && #[trigger] ranking@[j] == v {
                        let j = choose|j: int| 0 <= j < i && #[trigger] ranking@[j] == v;
                        assert(ranking@[j] == v);
                    }
                }
            }
            i += 1;
            continue;
        }
        // Create a stay constraint
        let ghost before = constraint_views(constraints@);
        let mut stay_methods = Vec::new();
        stay_methods.push(Method::stay(var_id));
        let ghost stay_method_view = stay_methods@[0]@;
        let stay_constraint = Constraint::new(stay_methods);
        let ghost stay_view = stay_constraint@;
        constraints.push(stay_constraint);
        let ghost with_stay = constraint_views(constraints@);
        proof {
            assert(with_stay =~= before.push(stay_view));
            assert(stay_view.methods[0].inputs.contains(var_id));
            assert forall|x: usize| #[trigger] stay_view.variables.contains(x) implies x < n by {
                let k = choose|k: int| 0 <= k < stay_view.methods.len() && (#[trigger] stay_view.methods[k].inputs.contains(x)
                    || stay_view.methods[k].outputs.contains(x));
                assert(k == 0);
            }
            crate::simple_planner::lemma_system_wf_push(n as nat, before, stay_view);
            assert forall|c: int, m: MethodView| 0 <= c < cs.len() && #[trigger] with_stay[c].methods.contains(m) implies cs[c].methods.contains(m) by {
                assert(with_stay[c] == before[c]);
            }
            assert forall|c: int, m: MethodView| cs.len() <= c < with_stay.len() && #[trigger] with_stay[c].methods.contains(m) implies m.is_stay by {
                if c < before.len() {
                    assert(with_stay[c] == before[c]);
                } else {
                    assert(stay_view.methods.len() == 1);
                }
            }
            assert forall|c: int| 0 <= c < cs.len() implies (#[trigger] with_stay[c]).name == cs[c].name by {
                assert(with_stay[c] == before[c]);
            }
        }
        let stay_index = constraints.len() - 1;
        proof {
            // The only method of the stay constraint writes `var_id`, which is all it references.
            assert(stay_view.methods.len() == 1);
            assert(stay_view.methods[0] == stay_method_view);
            assert(stay_method_view.outputs == seq![var_id]);
            assert forall|y: usize| #[trigger] stay_view.variables.contains(y) implies y == var_id by {
                assert(crate::constraint::used_by(stay_view.methods, y));
                let k = choose|k: int|
                    #![trigger stay_view.methods[k].inputs.contains(y)]
                    #![trigger stay_view.methods[k].outputs.contains(y)]
                    0 <= k < stay_view.methods.len() && (stay_view.methods[k].inputs.contains(y) || stay_view.methods[k].outputs.contains(y));
                assert(k == 0);
            }
            assert(before.len() < usize::MAX);
        }
        let ghost stay_pre = can_stay@;
        let ghost stay_of2 = stay_of.push(i as int);

        // If the stay is a source in the solution graph, adding it is no issue.
        let mut handled = false;
        if let Some(bs) = &best_solution {
            if writes_nowhere(bs.as_slice(), var_id) {
                var_to_constraint[var_id].push(stay_index);
                crate::pruner::prune_constraints(&mut var_to_constraint, var_id, &mut can_stay, n, &mut constraints);
                handled = true;
                proof {
                    let after = constraint_views(constraints@);
                    assert forall|c: int| 0 <= c < after.len() implies (#[trigger] after[c]).methods.len() <= usize::MAX by {
                        constraints@[c].lemma_methods_fit();
                    }
                    lemma_kept_stay(n as nat, cs.len() as int, ranking@, i as int, before, stay_view, after, stay_pre, can_stay@, stay_of);
                    lemma_kept_greedy(cs, cs.len() as int, ranking@, i as int, stay_of);
                    lemma_kept_survives(n as nat, cs, cs.len() as int, ranking@, i as int, before, stay_view, after, stay_pre, stay_of);
                    assert forall|c: int, k: int|
                        cs.len() <= c < stay_of2.len() && 0 <= k < bs@.len() && !bs@[k].method_spec()@.is_stay implies !(
                        #[trigger] bs@[k]).output_vars().contains(#[trigger] ranking@[stay_of2[c]]) by {
                        if c < stay_of.len() {
                            assert(stay_of2[c] == stay_of[c]);
                        } else {
                            assert(stay_of2[c] == i);
                        }
                    }
                    stay_of = stay_of2;
                }
            }
        }
        if !handled {
            // Check if this new solution works
            let ghost mut kept = false;
            match simple_plan_indices(n, constraints.as_slice()) {
                Some(p) => {
                    var_to_constraint[var_id].push(stay_index);
                    let new_solution = owned_plan(constraints.as_slice(), &p);
                    proof {
                        kept = true;
                        lemma_candidate_from_plan(n as nat, cs, constraint_views(constraints@), p@, new_solution@);
                        best_map = p@.map_values(|e: (usize, usize)| e.0 as int);
                        // Each stay constraint is enforced by its own method, the only writer of its variable.
                        assert forall|c: int, k: int|
                            cs.len() <= c < stay_of2.len() && 0 <= k < new_solution@.len() && !new_solution@[k].method_spec()@.is_stay
                                implies !(#[trigger] new_solution@[k]).output_vars().contains(#[trigger] ranking@[stay_of2[c]]) by {
                            let x = ranking@[stay_of2[c]];
                            lemma_elimination_plan_covers(with_stay, p@, c);
                            let a = choose|a: int| 0 <= a < p@.len() && (#[trigger] p@[a]).0 == c;
                            let m = chosen(with_stay, p@[a]);
                            assert(with_stay[c].methods.contains(m));
                            if c < before.len() {
                                assert(with_stay[c] == before[c]);
                                assert(stay_of2[c] == stay_of[c]);
                                assert(m.outputs == seq![ranking@[stay_of[c]]]);
                            } else {
                                assert(m == stay_view.methods[0]);
                                assert(stay_of2[c] == i);
                            }
                            assert(m.outputs.contains(x));
                            assert(writes(with_stay, p@[a], x));
                            lemma_single_writer(n as nat, with_stay, p@, a, x);
                            if k == a {
                                assert(m.is_stay);
                            } else {
                                assert(!writes(with_stay, p@[k], x));
                            }
                            assert(new_solution@[k].method_spec()@ == chosen(with_stay, p@[k]));
                        }
                    }
                    best_solution = Some(new_solution);
                },
                None => {
                    proof {
                        lemma_rejected_greedy(cs, cs.len() as int, ranking@, i as int, before, stay_view, stay_pre, stay_of);
                    }
                    // Can't satisfy this stay constraint, pop it.
                    constraints.pop();
                    assert(constraint_views(constraints@) =~= before);
                },
            }
            // In either case, the variable is written to, and we can prune from it.
            let ghost pre_prune = constraint_views(constraints@);
            crate::pruner::prune_constraints(&mut var_to_constraint, var_id, &mut can_stay, n, &mut constraints);
            proof {
                let after = constraint_views(constraints@);
                if best_solution is None {
                    assert(pre_prune == before);
                    assert forall|p: Seq<(usize, usize)>| #[trigger] is_elimination_plan(cs, p) implies uses_present_methods(
                        after,
                        cs,
                        p,
                    ) by {
                        assert(uses_present_methods(pre_prune, cs, p));
                    }
                }
                if kept {
                    assert(pre_prune == with_stay);
                    assert forall|c: int| 0 <= c < after.len() implies (#[trigger] after[c]).methods.len() <= usize::MAX by {
                        constraints@[c].lemma_methods_fit();
                    }
                    lemma_kept_stay(n as nat, cs.len() as int, ranking@, i as int, before, stay_view, after, stay_pre, can_stay@, stay_of);
                    lemma_kept_greedy(cs, cs.len() as int, ranking@, i as int, stay_of);
                    lemma_kept_survives(n as nat, cs, cs.len() as int, ranking@, i as int, before, stay_view, after, stay_pre, stay_of);
                    stay_of = stay_of2;
                } else {
                    assert(pre_prune == before);
                    lemma_rejected_stay(n as nat, cs.len() as int, ranking@, i as int, before, after, stay_pre, can_stay@, stay_of);
                    assert forall|c: int| 0 <= c < after.len() implies (#[trigger] after[c]).methods.len() <= usize::MAX by {
                        constraints@[c].lemma_methods_fit();
                    }
                    lemma_pruned_survives(n as nat, cs, cs.len() as int, ranking@, i as int, before, after, stay_of);
                }
            }
        }
        i += 1;
    }

    // Fall back to a plan without stay constraints
    let best: OwnedPlan<Method<T>> = match best_solution {
        Some(b) => b,
        None => match simple_plan_indices(n, constraints.as_slice()) {
            Some(p) => {
                let plan = owned_plan(constraints.as_slice(), &p);
                proof {
                    lemma_candidate_from_plan(n as nat, cs, constraint_views(constraints@), p@, plan@);
                    best_map = p@.map_values(|e: (usize, usize)| e.0 as int);
                }
                plan
            },
            None => {
                proof {
                    let ws = constraint_views(constraints@);
                    assert forall|c: int| 0 <= c < ws.len() implies (#[trigger] ws[c]).methods.len() <= usize::MAX by {
                        constraints@[c].lemma_methods_fit();
                    }
                    if exists|p: Seq<(usize, usize)>| #[trigger] is_elimination_plan(cs, p) {
                        let p = choose|p: Seq<(usize, usize)>| #[trigger] is_elimination_plan(cs, p);
                        let q = lemma_plan_survives(n as nat, cs, ws, p);
                        assert(is_elimination_plan(ws, q));
                        assert(false);
                    }
                }
                return Err(PlanError::Overconstrained);
            },
        },
    };

    proof {
        // The plan writes no variable that a stay constraint keeps.
        assert forall|c: int, k: int|
            cs.len() <= c < stay_of.len() && 0 <= k < best@.len() && !best@[k].method_spec()@.is_stay implies !(
            #[trigger] best@[k]).output_vars().contains(#[trigger] ranking@[stay_of[c]]) by {}
    }
    // Remove stay constraints
    let without_stays = filter_non_stays(&best, Ghost(cs), Ghost(best_map));
    let r = sort_plan(without_stays, n, Ghost(cs));
    proof {
        let plan = r->Ok_0@;
        assert forall|c: int| cs.len() <= c < stay_of.len() implies #[trigger] writes_nowhere_spec(plan, ranking@[stay_of[c]]) by {
            let x = ranking@[stay_of[c]];
            assert forall|kk: int| 0 <= kk < best@.len() && !best@[kk].method_spec()@.is_stay implies !(#[trigger] best@[kk]).output_vars().contains(x) by {}
            assert(writes_nowhere_spec(without_stays@, x));
        }
        assert forall|i: int| 0 <= i < ranking@.len() && #[trigger] keepable_after(cs, ranking@, i, plan) implies writes_nowhere_spec(
            plan,
            ranking@[i],
        ) by {
            let p = choose|p: Seq<(usize, usize)>|
                #[trigger] is_elimination_plan(cs, p) && plan_leaves(cs, p, ranking@[i]) && forall|j: int|
                    0 <= j < i && writes_nowhere_spec(plan, ranking@[j]) ==> #[trigger] plan_leaves(cs, p, ranking@[j]);
            assert forall|c: int| cs.len() <= c < stay_of.len() && stay_of[c] < i implies #[trigger] plan_leaves(cs, p, ranking@[stay_of[c]]) by {
                assert(writes_nowhere_spec(plan, ranking@[stay_of[c]]));
            }
            assert(leaves_stays_before(cs, p, cs.len() as int, ranking@, stay_of, i));
            assert(stay_possible(cs, ranking@, cs.len() as int, stay_of, i));
            let c = choose|c: int| cs.len() <= c < stay_of.len() && #[trigger] ranking@[stay_of[c]] == ranking@[i];
            assert(writes_nowhere_spec(plan, ranking@[stay_of[c]]));
        }
        assert forall|k: int| 0 <= k <= ranking@.len() && #[trigger] prefix_keepable(cs, ranking@, k) implies (r matches Ok(plan)
            && writes_none_of(plan@, ranking@, k)) by {
            let p = choose|p: Seq<(usize, usize)>| #[trigger] is_elimination_plan(cs, p) && leaves_prefix(cs, p, ranking@, k);
            assert forall|j: int| 0 <= j < k implies #[trigger] writes_nowhere_spec(plan, ranking@[j]) by {
                assert(plan_leaves(cs, p, ranking@[j]));
                assert forall|jj: int| 0 <= jj < j && writes_nowhere_spec(plan, ranking@[jj]) implies #[trigger] plan_leaves(cs, p, ranking@[jj]) by {}
                assert(keepable_after(cs, ranking@, j, plan));
            }
        }
    }
    r
}

/// Sorts a plan whose later entries do not touch what earlier entries write, so that it can run in order.
fn sort_plan<T: 'static>(
    without_stays: Vec<OwnedEnforcedConstraint<Method<T>>>,
    n: usize,
    Ghost(cs): Ghost<Seq<ConstraintView>>,
) -> (r: Result<OwnedPlan<Method<T>>, PlanError>)
    requires
        system_wf(n as nat, cs),
        exists|fmap: Seq<int>| #[trigger] plan_enforces(cs, without_stays@, fmap) && later_untouched(without_stays@),
    ensures
        r is Ok,
        forall|x: usize| #[trigger] writes_nowhere_spec(without_stays@, x) ==> (r matches Ok(plan) && writes_nowhere_spec(plan@, x)),
        r matches Ok(plan) ==> runs_in_order(plan@),
        r matches Ok(plan) ==> writes_disjoint(plan@),
        r matches Ok(plan) ==> exists|map: Seq<int>| #[trigger] plan_enforces(cs, plan@, map),
{
    let ghost fmap = choose|fmap: Seq<int>| #[trigger] plan_enforces(cs, without_stays@, fmap) && later_untouched(without_stays@);
    proof {
        assert forall|i: int, j: int| 0 <= i < j < without_stays@.len() implies !feeds(#[trigger] without_stays@[i], #[trigger] without_stays@[j]) by {
            if feeds(without_stays@[i], without_stays@[j]) {
                let k = choose|k: int| 0 <= k < without_stays@[i].output_vars().len() && without_stays@[j].input_vars().contains(
                    #[trigger] without_stays@[i].output_vars()[k],
                );
                assert(without_stays@[i].output_vars().contains(without_stays@[i].output_vars()[k]));
            }
        }
        lemma_no_forward_feeds_runs_backwards(without_stays@);
        assert forall|i: int, k: int| 0 <= i < without_stays@.len() && 0 <= k < without_stays@[i].input_vars().len() implies #[trigger] without_stays@[i].input_vars()[k]
            < n by {
            lemma_method_indices_below(n as nat, cs, fmap[i], without_stays@[i].method_spec()@, without_stays@[i].input_vars()[k]);
        }
        assert forall|i: int, k: int| 0 <= i < without_stays@.len() && 0 <= k < without_stays@[i].output_vars().len() implies #[trigger] without_stays@[i].output_vars()[k]
            < n by {
            lemma_method_indices_below(n as nat, cs, fmap[i], without_stays@[i].method_spec()@, without_stays@[i].output_vars()[k]);
        }
        assert(indices_below(without_stays@, n as nat));
    }
    let sorted = match toposort(without_stays.as_slice(), n) {
        Some(sorted) => sorted,
        None => return Err(PlanError::Overconstrained),
    };
    let ghost ord = choose|ord: Seq<int>| #[trigger] is_topological_order(without_stays@, ord) && sorted@.len() == ord.len()
        && forall|k: int| 0 <= k < ord.len() ==> #[trigger] sorted@[k] == without_stays@[ord[k]];
    let mut plan: OwnedPlan<Method<T>> = Vec::new();
    let mut k: usize = 0;
    while k < sorted.len()
        invariant
            k <= sorted@.len(),
            plan@.len() == k,
            forall|j: int|
                0 <= j < k ==> (#[trigger] plan@[j]).name_spec() == sorted@[j].name_spec() && plan@[j].method_spec()@
                    == sorted@[j].method_spec()@,
        decreases sorted@.len() - k,
    {
        plan.push(sorted[k].duplicate());
        k += 1;
    }
    let ghost map = ord.map_values(|o: int| fmap[o]);
    proof {
        let ws = without_stays@;
        assert(crate::vertex::is_index_permutation(ord, ws.len() as int));
        assert forall|j: int| 0 <= j < plan@.len() implies enforces(cs, #[trigger] plan@[j], map[j]) && !plan@[j].method_spec()@.is_stay by {
            assert(sorted@[j] == ws[ord[j]]);
            assert(enforces(cs, ws[ord[j]], fmap[ord[j]]));
        }
        assert forall|a: int, b: int| 0 <= a < map.len() && 0 <= b < map.len() && a != b implies #[trigger] map[a] != #[trigger] map[b] by {
            assert(ord[a] != ord[b]);
        }
        assert forall|c: int| 0 <= c < cs.len() implies #[trigger] maps_to(map, c) || has_stay_method(cs[c].methods) by {
            if maps_to(fmap, c) {
                let q = choose|q: int| 0 <= q < fmap.len() && #[trigger] fmap[q] == c;
                crate::vertex::lemma_permutation_covers(ord, ws.len() as int, q);
                let j = choose|j: int| 0 <= j < ord.len() && ord[j] == q;
                assert(map[j] == c);
            }
        }
        assert(plan_enforces(cs, plan@, map));
        assert forall|a: int, b: int| 0 <= a < b < plan@.len() implies !feeds(#[trigger] plan@[b], #[trigger] plan@[a]) by {
            assert(sorted@[a] == ws[ord[a]]);
            assert(sorted@[b] == ws[ord[b]]);
            assert(!crate::vertex::dataflow_edge(ws, ord[b], ord[a]));
            assert(ord[a] != ord[b]);
            if feeds(plan@[b], plan@[a]) {
                let q = choose|q: int| 0 <= q < plan@[b].output_vars().len() && plan@[a].input_vars().contains(
                    #[trigger] plan@[b].output_vars()[q],
                );
                assert(ws[ord[b]].output_vars()[q] == plan@[b].output_vars()[q]);
                assert(feeds(ws[ord[b]], ws[ord[a]]));
            }
        }
        assert forall|a: int, b: int, x: usize|
            0 <= a < plan@.len() && 0 <= b < plan@.len() && a != b && #[trigger] plan@[a].output_vars().contains(x) implies !(#[trigger] plan@[b]).output_vars().contains(
            x,
        ) by {
            assert(sorted@[a] == ws[ord[a]]);
            assert(sorted@[b] == ws[ord[b]]);
            assert(ord[a] != ord[b]);
            if ord[a] < ord[b] {
                assert(ws[ord[a]].output_vars().contains(x));
            } else {
                if plan@[b].output_vars().contains(x) {
                    assert(ws[ord[b]].output_vars().contains(x));
                }
            }
        }
        assert(runs_in_order(plan@));
        assert(writes_disjoint(plan@));
        assert(plan_enforces(cs, plan@, map) && runs_in_order(plan@) && writes_disjoint(plan@));
        assert forall|x: usize| #[trigger] writes_nowhere_spec(ws, x) implies writes_nowhere_spec(plan@, x) by {
            assert forall|j: int| 0 <= j < plan@.len() implies !(#[trigger] plan@[j]).output_vars().contains(x) by {
                assert(sorted@[j] == ws[ord[j]]);
                assert(!ws[ord[j]].output_vars().contains(x));
            }
        }
    }
    let ghost pv = plan@;
    let r: Result<OwnedPlan<Method<T>>, PlanError> = Ok(plan);
    assert(r->Ok_0@ == pv);
    assert(plan_enforces(cs, r->Ok_0@, map));
    r
}


/// Every variable that a method of a constraint of a well formed system reads or writes is below `n`.
pub proof fn lemma_method_indices_below(n: nat, cs: Seq<ConstraintView>, c: int, m: MethodView, x: usize)
    requires
        system_wf(n, cs),
        0 <= c < cs.len(),
        cs[c].methods.contains(m),
        m.inputs.contains(x) || m.outputs.contains(x),
    ensures
        x < n,
{
    let j = choose|j: int| 0 <= j < cs[c].methods.len() && cs[c].methods[j] == m;
    assert(lists_used_variables(cs[c].variables, cs[c].methods));
    if m.inputs.contains(x) {
        assert(cs[c].methods[j].inputs.contains(x));
    } else {
        assert(cs[c].methods[j].outputs.contains(x));
    }
    assert(crate::constraint::used_by(cs[c].methods, x));
    assert(cs[c].variables.contains(x));
    let k = choose|k: int| 0 <= k < cs[c].variables.len() && cs[c].variables[k] == x;
    assert(cs[c].variables[k] < n);
}

} // verus!
