//! Pruning: once a variable is known to be written, methods of other constraints that also
//! write it can never be selected, and variables that its unique writer writes become known too.

use crate::component::Component;
use crate::constraint::{contains_index, lemma_filter_idempotent, lists_used_variables, lemma_filter_methods, not_writing, Constraint, ConstraintView};
use crate::method::MethodView;
use crate::simple_planner::{chosen, constraint_views, is_elimination_plan, lemma_elimination_plan_covers, lemma_system_wf_update, system_wf, lemma_written_is_referenced, writes, VariableRefCounter};
use crate::vertex::Vertex;
use vstd::prelude::*;

verus! {

broadcast use vstd::seq_lib::group_seq_properties;

/// `vtc` has an entry for each variable below `n`, listing constraint indices below `n_constraints`, each once.
pub open spec fn var_map_wf(vtc: Seq<Vec<usize>>, n: nat, n_constraints: nat) -> bool {
    &&& vtc.len() == n
    &&& forall|v: int| 0 <= v < n ==> (#[trigger] vtc[v])@.no_duplicates()
    &&& forall|v: int, k: int| 0 <= v < n && 0 <= k < vtc[v]@.len() ==> #[trigger] vtc[v]@[k] < n_constraints
}

/// Each constraint of `after` has the name of the constraint at its place in `before`, and only
/// methods that constraint has.
pub open spec fn methods_pruned(before: Seq<ConstraintView>, after: Seq<ConstraintView>) -> bool {
    &&& after.len() == before.len()
    &&& forall|c: int| 0 <= c < after.len() ==> (#[trigger] after[c]).name == before[c].name
    &&& forall|c: int, m: MethodView| 0 <= c < after.len() && #[trigger] after[c].methods.contains(m) ==> before[c].methods.contains(m)
}

/// Every entry of `p`, a plan of `reference`, selects a method that its constraint still has in `now`.
pub open spec fn uses_present_methods(now: Seq<ConstraintView>, reference: Seq<ConstraintView>, p: Seq<(usize, usize)>) -> bool {
    forall|k: int| 0 <= k < p.len() ==> #[trigger] now[p[k].0 as int].methods.contains(chosen(reference, p[k]))
}

/// The methods an elimination plan selects are methods of their constraints.
pub proof fn lemma_plan_uses_own_methods(cs: Seq<ConstraintView>, p: Seq<(usize, usize)>)
    requires
        is_elimination_plan(cs, p),
    ensures
        uses_present_methods(cs, cs, p),
{
    assert forall|k: int| 0 <= k < p.len() implies #[trigger] cs[p[k].0 as int].methods.contains(chosen(cs, p[k])) by {
        assert(p[k].1 < cs[p[k].0 as int].methods.len());
    }
}

/// When the only method of constraint `keep` writes `var`, removing methods of other constraints
/// that write `var` removes no method that an elimination plan of `reference` selects.
proof fn lemma_removed_writers_unused(
    n: nat,
    reference: Seq<ConstraintView>,
    before: Seq<ConstraintView>,
    after: Seq<ConstraintView>,
    keep: int,
    var: usize,
    p: Seq<(usize, usize)>,
)
    requires
        system_wf(n, reference),
        is_elimination_plan(reference, p),
        before.len() == reference.len(),
        after.len() == before.len(),
        uses_present_methods(before, reference, p),
        0 <= keep < before.len(),
        before[keep].methods.len() == 1,
        before[keep].methods[0].outputs.contains(var),
        forall|c: int, m: MethodView|
            0 <= c < before.len() && #[trigger] before[c].methods.contains(m) && !after[c].methods.contains(m) ==> c != keep
                && m.outputs.contains(var),
    ensures
        uses_present_methods(after, reference, p),
{
    lemma_elimination_plan_covers(reference, p, keep);
    let a = choose|a: int| 0 <= a < p.len() && (#[trigger] p[a]).0 == keep;
    let mk = chosen(reference, p[a]);
    assert(before[keep].methods.contains(mk));
    assert(mk == before[keep].methods[0]);
    assert forall|k: int| 0 <= k < p.len() implies #[trigger] after[p[k].0 as int].methods.contains(chosen(reference, p[k])) by {
        let c = p[k].0 as int;
        let m = chosen(reference, p[k]);
        assert(before[c].methods.contains(m));
        if !after[c].methods.contains(m) {
            assert(c != keep && m.outputs.contains(var));
            lemma_written_is_referenced(n, reference, p[k], var);
            lemma_written_is_referenced(n, reference, p[a], var);
            assert(writes(reference, p[a], var));
            assert(writes(reference, p[k], var));
            if a < k {
                assert(!reference[(p[k]).0 as int].variables.contains(var));
            } else {
                assert(k != a);
                assert(!reference[(p[a]).0 as int].variables.contains(var));
            }
        }
    }
}

/// For each variable of a component, the constraints that reference it.
pub fn create_var_to_constraint<T: 'static>(component: &Component<T>) -> (r: Vec<Vec<usize>>)
    requires
        component.wf(),
    ensures
        var_map_wf(r@, component.n_vars(), component.constraints_view().len()),
        forall|v: int, c: usize|
            0 <= v < component.n_vars() ==> (#[trigger] r@[v]@.contains(c) <==> (c < component.constraints_view().len()
                && component.constraints_view()[c as int].variables.contains(v as usize))),
{
    let n = component.n_variables();
    let counters = VariableRefCounter::count_variable_refs(n, component.constraints());
    let mut var_to_constraint: Vec<Vec<usize>> = Vec::new();
    let mut v: usize = 0;
    while v < n
        invariant
            v <= n,
            n == component.n_vars(),
            counters@.len() == n,
            var_to_constraint@.len() == v,
            forall|j: int| 0 <= j < v ==> (#[trigger] var_to_constraint@[j])@ == counters@[j]@,
        decreases n - v,
    {
        var_to_constraint.push(counters[v].references_vec());
        v += 1;
    }
    proof {
        assert forall|j: int, k: int| 0 <= j < n && 0 <= k < var_to_constraint@[j]@.len() implies #[trigger] var_to_constraint@[j]@[k]
            < component.constraints_view().len() by {
            assert(counters@[j]@.contains(var_to_constraint@[j]@[k]));
        }
    }
    var_to_constraint
}

/// Methods pruned from constraints that were pruned are pruned from the first constraints.
pub proof fn lemma_methods_pruned_trans(a: Seq<ConstraintView>, b: Seq<ConstraintView>, c: Seq<ConstraintView>)
    requires
        methods_pruned(a, b),
        methods_pruned(b, c),
    ensures
        methods_pruned(a, c),
{
    assert forall|i: int, m: MethodView| 0 <= i < c.len() && #[trigger] c[i].methods.contains(m) implies a[i].methods.contains(m) by {
        assert(b[i].methods.contains(m));
    }
}

/// Some constraint of `ws` writes `v` with each of its methods, so that every plan that enforces
/// it writes `v`.
pub open spec fn forced(v: usize, ws: Seq<ConstraintView>) -> bool {
    exists|c: int| #[trigger] forces(ws, c, v)
}

/// Constraint `c` of `ws` writes `v` with each of its methods.
pub open spec fn forces(ws: Seq<ConstraintView>, c: int, v: usize) -> bool {
    0 <= c < ws.len() && forall|m: MethodView| #[trigger] ws[c].methods.contains(m) ==> m.outputs.contains(v)
}

/// A variable forced by constraints stays forced once methods are pruned from them.
pub proof fn lemma_forced_pruned(v: usize, before: Seq<ConstraintView>, after: Seq<ConstraintView>)
    requires
        methods_pruned(before, after),
        forced(v, before),
    ensures
        forced(v, after),
{
    let c = choose|c: int| #[trigger] forces(before, c, v);
    assert forall|m: MethodView| #[trigger] after[c].methods.contains(m) implies m.outputs.contains(v) by {
        assert(before[c].methods.contains(m));
    }
    assert(forces(after, c, v));
}

/// Method `m` may stay in constraint `c`: it writes no variable `v` whose writer `w[v]` was
/// found to be another constraint listed for `v` in `vtc`.
pub open spec fn kept_by(w: Seq<Option<usize>>, vtc: Seq<Vec<usize>>, c: int) -> spec_fn(MethodView) -> bool {
    |m: MethodView|
        forall|v: int|
            0 <= v < w.len() && #[trigger] w[v] is Some && w[v]->0 != c && vtc[v]@.contains(c as usize) ==> !m.outputs.contains(
                v as usize,
            )
}

/// Some constraint among `cis` of `cs` has a single method, which writes `var`.
pub open spec fn has_sole_writer(cs: Seq<ConstraintView>, cis: Seq<usize>, var: usize) -> bool {
    exists|k: int| 0 <= k < cis.len() && #[trigger] sole_writer(cs[cis[k] as int], var)
}

/// `u` is the first constraint among `cis` of `cs` that has a single method, which writes `var`.
pub open spec fn first_sole_writer(cs: Seq<ConstraintView>, cis: Seq<usize>, var: usize, u: usize) -> bool {
    exists|k: int|
        0 <= k < cis.len() && cis[k] == u && sole_writer(cs[u as int], var) && forall|k2: int|
            0 <= k2 < k ==> !sole_writer(#[trigger] cs[cis[k2] as int], var)
}

/// `cs1` is `cs0` pruned from `start`, with `w[v]` the writer found for each variable `v` that
/// has one: each such variable can no longer stay, its writer is listed for it in `vtc0` and has
/// a method that writes it; each constraint keeps its name and, in order, those of its methods
/// that write no variable whose writer is another constraint listed for it; and the first
/// constraint listed for `start` with a single method that writes `start`, if there is one, is
/// the writer of `start`.
pub open spec fn pruned_with(
    cs0: Seq<ConstraintView>,
    cs1: Seq<ConstraintView>,
    vtc0: Seq<Vec<usize>>,
    can_stay1: Seq<bool>,
    start: usize,
    n: nat,
    w: Seq<Option<usize>>,
) -> bool {
    &&& w.len() == n
    &&& cs1.len() == cs0.len()
    &&& forall|v: int|
        0 <= v < n && #[trigger] w[v] is Some ==> w[v]->0 < cs0.len() && v < can_stay1.len() && !can_stay1[v] && vtc0[v]@.contains(
            w[v]->0,
        ) && exists|m: MethodView| #[trigger] cs0[w[v]->0 as int].methods.contains(m) && m.outputs.contains(v as usize)
    &&& forall|c: int|
        0 <= c < cs0.len() ==> (#[trigger] cs1[c]).name == cs0[c].name && cs1[c].methods == cs0[c].methods.filter(
            kept_by(w, vtc0, c),
        )
    &&& has_sole_writer(cs0, vtc0[start as int]@, start) ==> (w[start as int] matches Some(u) && first_sole_writer(
        cs0,
        vtc0[start as int]@,
        start,
        u,
    ))
}

/// Filtering by two tests in turn is filtering by both.
pub proof fn lemma_filter_both(
    ms: Seq<MethodView>,
    f: spec_fn(MethodView) -> bool,
    g: spec_fn(MethodView) -> bool,
    h: spec_fn(MethodView) -> bool,
)
    requires
        forall|m: MethodView| #[trigger] h(m) == (f(m) && g(m)),
    ensures
        ms.filter(f).filter(g) == ms.filter(h),
    decreases ms.len(),
{
    reveal_with_fuel(Seq::filter, 1);
    if ms.len() > 0 {
        lemma_filter_both(ms.drop_last(), f, g, h);
        let a = ms.drop_last().filter(f);
        let x = ms.last();
        assert(h(x) == (f(x) && g(x)));
        if f(x) {
            assert(ms.filter(f) == a.push(x));
            assert(a.push(x).drop_last() =~= a);
        } else {
            assert(ms.filter(f) == a);
        }
    }
}

/// Filtering by a test that every method passes keeps them all.
pub proof fn lemma_filter_all(ms: Seq<MethodView>, f: spec_fn(MethodView) -> bool)
    requires
        forall|m: MethodView| #[trigger] f(m),
    ensures
        ms.filter(f) == ms,
    decreases ms.len(),
{
    reveal_with_fuel(Seq::filter, 1);
    if ms.len() > 0 {
        lemma_filter_all(ms.drop_last(), f);
        assert(f(ms.last()));
        assert(ms.drop_last().push(ms.last()) =~= ms);
    }
}

/// Walks from variable `start`, which is known to be written, through the variables that are
/// known to be written as a consequence. Each visited variable can no longer stay. When a visited
/// variable has a unique writer (a constraint among `var_to_constraints` with one method, which
/// writes it), the methods of its other constraints that write it are removed, the outputs of its
/// constraints with a single method are visited next, and its list of constraints becomes the
/// unique writer alone.
///
/// A variable is only pushed for a visit while it has not been visited, and the writers of a
/// variable are expanded at most once, so the walk takes at most one step more than the number of
/// variables times the number of outputs of all methods; the loop is bounded by that count.
pub(crate) fn prune_constraints<T: 'static>(
    var_to_constraints: &mut Vec<Vec<usize>>,
    start: usize,
    can_stay: &mut Vec<bool>,
    n: usize,
    constraints: &mut Vec<Constraint<T>>,
)
    requires
        system_wf(n as nat, constraint_views(old(constraints)@)),
        var_map_wf(old(var_to_constraints)@, n as nat, old(constraints)@.len()),
        start < n,
        n <= old(can_stay)@.len(),
    ensures
        system_wf(n as nat, constraint_views(final(constraints)@)),
        methods_pruned(constraint_views(old(constraints)@), constraint_views(final(constraints)@)),
        var_map_wf(final(var_to_constraints)@, n as nat, old(constraints)@.len()),
        forall|v: int, c: usize|
            0 <= v < n && #[trigger] final(var_to_constraints)@[v]@.contains(c) ==> old(var_to_constraints)@[v]@.contains(c),
        final(can_stay)@.len() == old(can_stay)@.len(),
        forall|v: int| 0 <= v < final(can_stay)@.len() && #[trigger] final(can_stay)@[v] ==> old(can_stay)@[v],
        !final(can_stay)@[start as int],
        forall|v: usize|
            v < n && old(can_stay)@[v as int] && !#[trigger] final(can_stay)@[v as int] && v != start ==> forced(
                v,
                constraint_views(final(constraints)@),
            ),
        exists|w: Seq<Option<usize>>|
            #[trigger] pruned_with(
                constraint_views(old(constraints)@),
                constraint_views(final(constraints)@),
                old(var_to_constraints)@,
                final(can_stay)@,
                start,
                n as nat,
                w,
            ),
        forall|reference: Seq<ConstraintView>, p: Seq<(usize, usize)>|
            #![trigger uses_present_methods(constraint_views(final(constraints)@), reference, p)]
            system_wf(n as nat, reference) && is_elimination_plan(reference, p) && reference.len() == old(constraints)@.len()
                && uses_present_methods(constraint_views(old(constraints)@), reference, p) ==> uses_present_methods(
                constraint_views(final(constraints)@),
                reference,
                p,
            ),
{
    let ghost cs0 = constraint_views(constraints@);
    let ghost vtc0 = var_to_constraints@;
    let ghost stay0 = can_stay@;
    let n_constraints = constraints.len();

    // Bound on the number of steps of the walk
    let mut n_outputs: usize = 0;
    let mut ci: usize = 0;
    while ci < constraints.len()
        invariant
            ci <= constraints@.len(),
        decreases constraints@.len() - ci,
    {
        let methods = constraints[ci].methods();
        let mut mi: usize = 0;
        while mi < methods.len()
            invariant
                mi <= methods@.len(),
            decreases methods@.len() - mi,
        {
            n_outputs = n_outputs.saturating_add(methods[mi].n_outputs());
            mi += 1;
        }
        ci += 1;
    }
    let budget: usize = match n.checked_mul(n_outputs) {
        Some(b) => b.saturating_add(1),
        None => usize::MAX,
    };

    // Lock in variables by a depth-first walk from the variable that is written
    let mut visited: Vec<bool> = Vec::new();
    let mut i: usize = 0;
    while i < n
        invariant
            i <= n,
            visited@.len() == i,
        decreases n - i,
    {
        visited.push(false);
        i += 1;
    }
    let mut are_written_to: Vec<usize> = Vec::new();
    are_written_to.push(start);
    // The writer found for each variable
    let ghost mut w: Seq<Option<usize>> = Seq::new(n as nat, |v: int| None);
    proof {
        assert forall|c: int| 0 <= c < cs0.len() implies (#[trigger] cs0[c]).methods == cs0[c].methods.filter(kept_by(w, vtc0, c)) by {
            lemma_filter_all(cs0[c].methods, kept_by(w, vtc0, c));
        }
    }
    let mut steps: usize = 0;
    while steps < budget && are_written_to.len() > 0
        invariant
            n_constraints == constraints@.len(),
            n_constraints == cs0.len(),
            system_wf(n as nat, constraint_views(constraints@)),
            methods_pruned(cs0, constraint_views(constraints@)),
            var_map_wf(var_to_constraints@, n as nat, n_constraints as nat),
            forall|v: int, c: usize| 0 <= v < n && #[trigger] var_to_constraints@[v]@.contains(c) ==> vtc0[v]@.contains(c),
            can_stay@.len() == stay0.len(),
            n <= can_stay@.len(),
            start < n,
            forall|v: int| 0 <= v < can_stay@.len() && #[trigger] can_stay@[v] ==> stay0[v],
            visited@.len() == n,
            forall|k: int| 0 <= k < are_written_to@.len() ==> #[trigger] are_written_to@[k] < n,
            budget >= 1,
            steps == 0 ==> are_written_to@ == seq![start],
            steps > 0 ==> !can_stay@[start as int],
            forall|v: usize|
                v < n && stay0[v as int] && !#[trigger] can_stay@[v as int] && v != start ==> forced(v, constraint_views(constraints@)),
            forall|k: int| 0 <= k < are_written_to@.len() && are_written_to@[k] != start ==> forced(#[trigger] are_written_to@[k], constraint_views(constraints@)),
            forall|reference: Seq<ConstraintView>, p: Seq<(usize, usize)>|
                #![trigger uses_present_methods(constraint_views(constraints@), reference, p)]
                system_wf(n as nat, reference) && is_elimination_plan(reference, p) && reference.len() == cs0.len()
                    && uses_present_methods(cs0, reference, p) ==> uses_present_methods(constraint_views(constraints@), reference, p),
            w.len() == n,
            vtc0.len() == n,
            steps == 0 ==> constraint_views(constraints@) == cs0 && var_to_constraints@ == vtc0 && forall|v: int|
                0 <= v < n ==> #[trigger] w[v] is None,
            forall|v: int| 0 <= v < n && #[trigger] w[v] is None ==> var_to_constraints@[v] == vtc0[v],
            forall|v: int|
                0 <= v < n && #[trigger] w[v] is Some ==> var_to_constraints@[v]@ == seq![w[v]->0] && w[v]->0 < cs0.len()
                    && !can_stay@[v] && vtc0[v]@.contains(w[v]->0) && exists|m: MethodView|
                    #[trigger] cs0[w[v]->0 as int].methods.contains(m) && m.outputs.contains(v as usize),
            forall|c: int|
                0 <= c < cs0.len() ==> (#[trigger] constraint_views(constraints@)[c]).name == cs0[c].name && constraint_views(
                    constraints@,
                )[c].methods == cs0[c].methods.filter(kept_by(w, vtc0, c)),
            steps > 0 && has_sole_writer(cs0, vtc0[start as int]@, start) ==> (w[start as int] matches Some(u)
                && first_sole_writer(cs0, vtc0[start as int]@, start, u)),
        decreases budget - steps,
    {
        let ghost awt_before = are_written_to@;
        let ghost stay_before = can_stay@;
        let current_idx = are_written_to.pop().unwrap();
        assert(steps == 0 ==> current_idx == start);
        visited.set(current_idx, true);
        can_stay.set(current_idx, false);
        proof {
            assert(current_idx == awt_before[awt_before.len() - 1]);
            assert forall|v: usize| v < n && stay0[v as int] && !#[trigger] can_stay@[v as int] && v != start implies forced(
                v,
                constraint_views(constraints@),
            ) by {
                if v != current_idx {
                    assert(can_stay@[v as int] == stay_before[v as int]);
                }
            }
            assert forall|k: int| 0 <= k < are_written_to@.len() && are_written_to@[k] != start implies forced(
                #[trigger] are_written_to@[k],
                constraint_views(constraints@),
            ) by {
                assert(are_written_to@[k] == awt_before[k]);
            }
        }

        // Find the unique writer for this variable
        let ghost before_cs = constraint_views(constraints@);
        let ghost before_constraints = constraints@;
        let ghost before_vtc = var_to_constraints@;
        let ghost ci = current_idx as int;
        let unique_writer = find_unique_writer(var_to_constraints[current_idx].as_slice(), constraints.as_slice(), current_idx);
        proof {
            if unique_writer is None && steps == 0 {
                assert forall|k: int| 0 <= k < vtc0[start as int]@.len() implies !#[trigger] sole_writer(
                    cs0[vtc0[start as int]@[k] as int],
                    start,
                ) by {
                    assert(cs0[vtc0[start as int]@[k] as int] == constraints@[vtc0[start as int]@[k] as int]@);
                }
            }
        }

        // If a unique writer exists
        if let Some(uwci) = unique_writer {
            // Remove methods in the other constraints that write to this variable
            assert(before_cs[uwci as int] == constraints@[uwci as int]@);
            assert(before_cs[uwci as int].methods.len() == 1 && before_cs[uwci as int].methods[0].outputs.contains(current_idx));
            remove_other_writers(constraints, var_to_constraints[current_idx].as_slice(), uwci, current_idx, n);
            proof {
                // The writer found for the variable, and the methods kept
                let cis = before_vtc[ci]@;
                let w_new = w.update(ci, Some(uwci));
                let after_cs = constraint_views(constraints@);
                if w[ci] is None {
                    assert(cis == vtc0[ci]@);
                    assert forall|c: int| 0 <= c < cs0.len() implies (#[trigger] after_cs[c]).name == cs0[c].name
                        && after_cs[c].methods == cs0[c].methods.filter(kept_by(w_new, vtc0, c)) by {
                        assert(after_cs[c] == constraints@[c]@);
                        assert(before_cs[c] == before_constraints[c]@);
                        let f = kept_by(w, vtc0, c);
                        let h = kept_by(w_new, vtc0, c);
                        if cis.contains(c as usize) && c != uwci {
                            let g = not_writing(current_idx);
                            assert forall|m: MethodView| #[trigger] h(m) == (f(m) && g(m)) by {
                                if h(m) {
                                    assert(w_new[ci] is Some);
                                    assert forall|v: int|
                                        0 <= v < w.len() && #[trigger] w[v] is Some && w[v]->0 != c && vtc0[v]@.contains(c as usize)
                                            implies !m.outputs.contains(v as usize) by {
                                        assert(w_new[v] == w[v]);
                                    }
                                }
                                if f(m) && g(m) {
                                    assert forall|v: int|
                                        0 <= v < w_new.len() && #[trigger] w_new[v] is Some && w_new[v]->0 != c && vtc0[v]@.contains(
                                            c as usize,
                                        ) implies !m.outputs.contains(v as usize) by {
                                        if v != ci {
                                            assert(w_new[v] == w[v]);
                                        }
                                    }
                                }
                            }
                            lemma_filter_both(cs0[c].methods, f, g, h);
                        } else {
                            assert(constraints@[c] == before_constraints[c]);
                            assert forall|m: MethodView| #[trigger] h(m) == f(m) by {
                                if h(m) {
                                    assert forall|v: int|
                                        0 <= v < w.len() && #[trigger] w[v] is Some && w[v]->0 != c && vtc0[v]@.contains(c as usize)
                                            implies !m.outputs.contains(v as usize) by {
                                        assert(w_new[v] == w[v]);
                                    }
                                }
                                if f(m) {
                                    assert forall|v: int|
                                        0 <= v < w_new.len() && #[trigger] w_new[v] is Some && w_new[v]->0 != c && vtc0[v]@.contains(
                                            c as usize,
                                        ) implies !m.outputs.contains(v as usize) by {
                                        if v != ci {
                                            assert(w_new[v] == w[v]);
                                        }
                                    }
                                }
                            }
                            assert(h =~= f);
                        }
                    }
                } else {
                    assert(cis == seq![w[ci]->0]);
                    assert(cis.contains(uwci));
                    assert(uwci == w[ci]->0);
                    assert(w_new =~= w);
                    assert forall|c: int| 0 <= c < cs0.len() implies (#[trigger] after_cs[c]).name == cs0[c].name
                        && after_cs[c].methods == cs0[c].methods.filter(kept_by(w_new, vtc0, c)) by {
                        assert(!(cis.contains(c as usize) && c != uwci));
                        assert(constraints@[c] == before_constraints[c]);
                        assert(after_cs[c] == constraints@[c]@);
                        assert(before_cs[c] == before_constraints[c]@);
                    }
                }
                let m0 = before_cs[uwci as int].methods[0];
                assert(before_cs[uwci as int].methods.contains(m0));
                assert(cs0[uwci as int].methods.contains(m0));
                if steps == 0 {
                    assert(first_sole_writer(cs0, vtc0[start as int]@, start, uwci)) by {
                        let k = choose|k: int|
                            0 <= k < cis.len() && cis[k] == uwci && forall|k2: int|
                                0 <= k2 < k ==> !sole_writer(#[trigger] constraints@[cis[k2] as int]@, current_idx);
                        assert forall|k2: int| 0 <= k2 < k implies !sole_writer(#[trigger] cs0[cis[k2] as int], start) by {
                            assert(!sole_writer(before_constraints[cis[k2] as int]@, current_idx));
                        }
                    }
                }
                w = w_new;
            }
            proof {
                lemma_methods_pruned_trans(cs0, before_cs, constraint_views(constraints@));
                assert forall|reference: Seq<ConstraintView>, p: Seq<(usize, usize)>|
                    system_wf(n as nat, reference) && is_elimination_plan(reference, p) && reference.len() == cs0.len()
                        && uses_present_methods(cs0, reference, p) implies #[trigger] uses_present_methods(
                        constraint_views(constraints@),
                        reference,
                        p,
                    ) by {
                    assert(uses_present_methods(before_cs, reference, p));
                    lemma_removed_writers_unused(
                        n as nat,
                        reference,
                        before_cs,
                        constraint_views(constraints@),
                        uwci as int,
                        current_idx,
                        p,
                    );
                }
            }

            proof {
                let after_cs = constraint_views(constraints@);
                assert forall|v: usize| v < n && stay0[v as int] && !#[trigger] can_stay@[v as int] && v != start implies forced(
                    v,
                    after_cs,
                ) by {
                    lemma_forced_pruned(v, before_cs, after_cs);
                }
                assert forall|k: int| 0 <= k < are_written_to@.len() && are_written_to@[k] != start implies forced(
                    #[trigger] are_written_to@[k],
                    after_cs,
                ) by {
                    lemma_forced_pruned(are_written_to@[k], before_cs, after_cs);
                }
            }

            // Visit all the outputs of enforced constraints (with only one method), which are now
            // definitely written to.
            push_enforced_outputs(
                constraints.as_slice(),
                var_to_constraints[current_idx].as_slice(),
                visited.as_slice(),
                &mut are_written_to,
                n,
            );

            // Only the unique writer writes this variable now
            let mut only_writer: Vec<usize> = Vec::new();
            only_writer.push(uwci);
            let ghost old_vtc = var_to_constraints@;
            var_to_constraints.set(current_idx, only_writer);
            proof {
                assert(var_to_constraints@[ci]@ == seq![uwci]);
                assert forall|v: int| 0 <= v < n && #[trigger] w[v] is None implies var_to_constraints@[v] == vtc0[v] by {
                    assert(v != ci);
                    assert(var_to_constraints@[v] == old_vtc[v]);
                }
                assert forall|v: int| 0 <= v < n && #[trigger] w[v] is Some && v != ci implies var_to_constraints@[v]@ == seq![w[v]->0] by {
                    assert(var_to_constraints@[v] == old_vtc[v]);
                }
                assert forall|v: int, c: usize| 0 <= v < n && #[trigger] var_to_constraints@[v]@.contains(c) implies vtc0[v]@.contains(c) by {
                    if v == current_idx {
                        assert(c == uwci);
                        assert(old_vtc[v]@.contains(c));
                    } else {
                        assert(var_to_constraints@[v] == old_vtc[v]);
                    }
                }
                assert forall|v: int| 0 <= v < n implies (#[trigger] var_to_constraints@[v])@.no_duplicates() by {
                    if v != current_idx {
                        assert(var_to_constraints@[v] == old_vtc[v]);
                    }
                }
                assert forall|v: int, k: int| 0 <= v < n && 0 <= k < var_to_constraints@[v]@.len() implies #[trigger] var_to_constraints@[v]@[k]
                    < n_constraints by {
                    if v != current_idx {
                        assert(var_to_constraints@[v] == old_vtc[v]);
                    }
                }
            }
        }
        steps += 1;
    }
    assert(pruned_with(cs0, constraint_views(constraints@), vtc0, can_stay@, start, n as nat, w));
}

/// Constraint `c` has a single method, which writes `var`.
pub open spec fn sole_writer(c: ConstraintView, var: usize) -> bool {
    c.methods.len() == 1 && c.methods[0].outputs.contains(var)
}

/// The first constraint among `cis` that has a single method, which writes `var`.
fn find_unique_writer<T: 'static>(cis: &[usize], constraints: &[Constraint<T>], var: usize) -> (r: Option<usize>)
    requires
        forall|k: int| 0 <= k < cis@.len() ==> #[trigger] cis@[k] < constraints@.len(),
    ensures
        r matches Some(ci) ==> cis@.contains(ci) && ci < constraints@.len() && constraints@[ci as int]@.methods.len() == 1
            && constraints@[ci as int]@.methods[0].outputs.contains(var),
        r matches Some(ci) ==> exists|k: int|
            0 <= k < cis@.len() && cis@[k] == ci && forall|k2: int|
                0 <= k2 < k ==> !sole_writer(#[trigger] constraints@[cis@[k2] as int]@, var),
        r is None ==> forall|k: int| 0 <= k < cis@.len() ==> !sole_writer(#[trigger] constraints@[cis@[k] as int]@, var),
{
    let mut j: usize = 0;
    while j < cis.len()
        invariant
            forall|k: int| 0 <= k < cis@.len() ==> #[trigger] cis@[k] < constraints@.len(),
            j <= cis@.len(),
            forall|k: int| 0 <= k < j ==> !sole_writer(#[trigger] constraints@[cis@[k] as int]@, var),
        decreases cis@.len() - j,
    {
        let ci = cis[j];
        let methods = constraints[ci].methods();
        if methods.len() == 1 && contains_index(methods[0].outputs(), var) {
            assert(crate::constraint::method_views(methods@)[0] == methods@[0]@);
            assert(cis@[j as int] == ci);
            return Some(ci);
        }
        proof {
            if methods@.len() == 1 {
                assert(crate::constraint::method_views(methods@)[0] == methods@[0]@);
            }
            assert(!sole_writer(constraints@[cis@[j as int] as int]@, var));
        }
        j += 1;
    }
    None
}

/// Removes the methods that write `var` from each constraint of `cis` other than `keep`.
fn remove_other_writers<T: 'static>(constraints: &mut Vec<Constraint<T>>, cis: &[usize], keep: usize, var: usize, n: usize)
    requires
        forall|k: int| 0 <= k < cis@.len() ==> #[trigger] cis@[k] < old(constraints)@.len(),
        system_wf(n as nat, constraint_views(old(constraints)@)),
    ensures
        final(constraints)@.len() == old(constraints)@.len(),
        system_wf(n as nat, constraint_views(final(constraints)@)),
        methods_pruned(constraint_views(old(constraints)@), constraint_views(final(constraints)@)),
        forall|c: int, m: MethodView|
            0 <= c < old(constraints)@.len() && #[trigger] constraint_views(old(constraints)@)[c].methods.contains(m)
                && !constraint_views(final(constraints)@)[c].methods.contains(m) ==> c != keep && m.outputs.contains(var),
        forall|c: int|
            0 <= c < old(constraints)@.len() && !(cis@.contains(c as usize) && c != keep) ==> #[trigger] final(constraints)@[c]
                == old(constraints)@[c],
        forall|c: int|
            0 <= c < old(constraints)@.len() && cis@.contains(c as usize) && c != keep ==> (#[trigger] final(constraints)@[c])@.name
                == old(constraints)@[c]@.name && final(constraints)@[c]@.methods == old(constraints)@[c]@.methods.filter(
                not_writing(var),
            ),
{
    let ghost cs0 = constraint_views(constraints@);
    let ghost old_cs = constraints@;
    let n_constraints = constraints.len();
    let mut j: usize = 0;
    while j < cis.len()
        invariant
            forall|k: int| 0 <= k < cis@.len() ==> #[trigger] cis@[k] < constraints@.len(),
            constraints@.len() == cs0.len(),
            j <= cis@.len(),
            system_wf(n as nat, constraint_views(constraints@)),
            methods_pruned(cs0, constraint_views(constraints@)),
            forall|c: int, m: MethodView|
                0 <= c < cs0.len() && #[trigger] cs0[c].methods.contains(m) && !constraint_views(constraints@)[c].methods.contains(m)
                    ==> c != keep && m.outputs.contains(var),
            n_constraints == old_cs.len(),
            constraints@.len() == old_cs.len(),
            forall|c: int|
                0 <= c < old_cs.len() && !(cis@.subrange(0, j as int).contains(c as usize) && c != keep) ==> #[trigger] constraints@[c]
                    == old_cs[c],
            forall|c: int|
                0 <= c < old_cs.len() && cis@.subrange(0, j as int).contains(c as usize) && c != keep ==> (
                #[trigger] constraints@[c])@.name == old_cs[c]@.name && constraints@[c]@.methods == old_cs[c]@.methods.filter(
                    not_writing(var),
                ),
        decreases cis@.len() - j,
    {
        let ci = cis[j];
        let ghost prior = constraints@;
        proof {
            lemma_prefix_contains_step(cis@, j as int);
        }
        if ci != keep {
            let ghost before = constraint_views(constraints@);
            assert(before[ci as int] == constraints@[ci as int]@);
            assert(lists_used_variables(before[ci as int].variables, before[ci as int].methods));
            constraints[ci].remove_methods_writing(var);
            proof {
                let after = constraint_views(constraints@);
                let c = after[ci as int];
                let keep_m = |m: MethodView| !m.outputs.contains(var);
                lemma_filter_methods(before[ci as int].methods, keep_m);
                assert(after =~= before.update(ci as int, c));
                lemma_system_wf_update(n as nat, before, ci as int, c);
                assert forall|i: int, m: MethodView| 0 <= i < after.len() && #[trigger] after[i].methods.contains(m) implies cs0[i].methods.contains(m) by {
                    if i != ci {
                        assert(after[i] == before[i]);
                    }
                    assert(before[i].methods.contains(m));
                }
                assert forall|i: int, m: MethodView|
                    0 <= i < cs0.len() && #[trigger] cs0[i].methods.contains(m) && !after[i].methods.contains(m)
                        implies i != keep && m.outputs.contains(var) by {
                    if i != ci {
                        assert(after[i] == before[i]);
                    } else if before[i].methods.contains(m) {
                        before[i].methods.filter_lemma(keep_m);
                        let k = choose|k: int| 0 <= k < before[i].methods.len() && before[i].methods[k] == m;
                        if keep_m(m) {
                            assert(before[i].methods.filter(keep_m).contains(before[i].methods[k]));
                        }
                    }
                }
                let nw = not_writing(var);
                assert(constraints@ =~= prior.update(ci as int, constraints@[ci as int]));
                if cis@.subrange(0, j as int).contains(ci) {
                    lemma_filter_idempotent(old_cs[ci as int]@.methods, nw);
                }
                assert forall|c2: int|
                    0 <= c2 < old_cs.len() && cis@.subrange(0, j + 1).contains(c2 as usize) && c2 != keep implies (
                    #[trigger] constraints@[c2])@.name == old_cs[c2]@.name && constraints@[c2]@.methods == old_cs[c2]@.methods.filter(
                        nw,
                    ) by {
                    if c2 != ci {
                        assert(constraints@[c2] == prior[c2]);
                        assert(cis@.subrange(0, j as int).contains(c2 as usize));
                    }
                }
                assert forall|c2: int|
                    0 <= c2 < old_cs.len() && !(cis@.subrange(0, j + 1).contains(c2 as usize) && c2 != keep) implies #[trigger] constraints@[c2]
                        == old_cs[c2] by {
                    if c2 != ci {
                        assert(constraints@[c2] == prior[c2]);
                    }
                }
            }
        }
        j += 1;
    }
    assert(cis@.subrange(0, cis@.len() as int) =~= cis@);
}

/// Whether `x` is among the first `j + 1` entries of `s`: among the first `j`, or entry `j`.
proof fn lemma_prefix_contains_step(s: Seq<usize>, j: int)
    requires
        0 <= j < s.len(),
    ensures
        forall|x: usize| #[trigger] s.subrange(0, j + 1).contains(x) <==> (s.subrange(0, j).contains(x) || s[j] == x),
{
    assert(s.subrange(0, j + 1) =~= s.subrange(0, j).push(s[j]));
}

/// Variable `o` has not been visited.
pub open spec fn unvisited(visited: Seq<bool>) -> spec_fn(usize) -> bool {
    |o: usize| !visited[o as int]
}

/// The outputs of the method of `c`, when it has a single method.
pub open spec fn sole_outputs(c: ConstraintView) -> Seq<usize> {
    if c.methods.len() == 1 {
        c.methods[0].outputs
    } else {
        Seq::empty()
    }
}

/// The unvisited outputs of each constraint of `cis` that has a single method, in order.
pub open spec fn enforced_outputs(cs: Seq<ConstraintView>, cis: Seq<usize>, visited: Seq<bool>) -> Seq<usize>
    decreases cis.len(),
{
    if cis.len() == 0 {
        Seq::empty()
    } else {
        enforced_outputs(cs, cis.drop_last(), visited) + sole_outputs(cs[cis.last() as int]).filter(unvisited(visited))
    }
}

/// Pushes the unvisited outputs of each constraint of `cis` that has a single method.
fn push_enforced_outputs<T: 'static>(
    constraints: &[Constraint<T>],
    cis: &[usize],
    visited: &[bool],
    are_written_to: &mut Vec<usize>,
    n: usize,
)
    requires
        forall|k: int| 0 <= k < cis@.len() ==> #[trigger] cis@[k] < constraints@.len(),
        system_wf(n as nat, constraint_views(constraints@)),
        visited@.len() == n,
        forall|k: int| 0 <= k < old(are_written_to)@.len() ==> #[trigger] old(are_written_to)@[k] < n,
    ensures
        forall|k: int| 0 <= k < final(are_written_to)@.len() ==> #[trigger] final(are_written_to)@[k] < n,
        final(are_written_to)@.len() >= old(are_written_to)@.len(),
        forall|k: int| 0 <= k < old(are_written_to)@.len() ==> #[trigger] final(are_written_to)@[k] == old(are_written_to)@[k],
        forall|k: int|
            old(are_written_to)@.len() <= k < final(are_written_to)@.len() ==> forced(
                #[trigger] final(are_written_to)@[k],
                constraint_views(constraints@),
            ),
        final(are_written_to)@ == old(are_written_to)@ + enforced_outputs(constraint_views(constraints@), cis@, visited@),
{
    let ghost cs = constraint_views(constraints@);
    let ghost awt0 = are_written_to@;
    let ghost f = unvisited(visited@);
    let mut j: usize = 0;
    while j < cis.len()
        invariant
            forall|k: int| 0 <= k < cis@.len() ==> #[trigger] cis@[k] < constraints@.len(),
            cs == constraint_views(constraints@),
            system_wf(n as nat, cs),
            visited@.len() == n,
            j <= cis@.len(),
            forall|k: int| 0 <= k < are_written_to@.len() ==> #[trigger] are_written_to@[k] < n,
            are_written_to@.len() >= awt0.len(),
            forall|k: int| 0 <= k < awt0.len() ==> #[trigger] are_written_to@[k] == awt0[k],
            forall|k: int| awt0.len() <= k < are_written_to@.len() ==> forced(#[trigger] are_written_to@[k], cs),
            f == unvisited(visited@),
            are_written_to@ == awt0 + enforced_outputs(cs, cis@.subrange(0, j as int), visited@),
        decreases cis@.len() - j,
    {
        let ci = cis[j];
        let methods = constraints[ci].methods();
        let ghost done = are_written_to@;
        proof {
            assert(cis@.subrange(0, j + 1).drop_last() =~= cis@.subrange(0, j as int));
            assert(cs[ci as int] == constraints@[ci as int]@);
        }
        if methods.len() == 1 {
            let outputs = methods[0].outputs();
            assert(cs[ci as int] == constraints@[ci as int]@);
            assert(crate::constraint::method_views(methods@)[0] == methods@[0]@);
            let mut k: usize = 0;
            while k < outputs.len()
                invariant
                    k <= outputs@.len(),
                    ci < cs.len(),
                    cs[ci as int].methods.len() == 1,
                    outputs@ == cs[ci as int].methods[0].outputs,
                    system_wf(n as nat, cs),
                    visited@.len() == n,
                    forall|i: int| 0 <= i < are_written_to@.len() ==> #[trigger] are_written_to@[i] < n,
                    are_written_to@.len() >= awt0.len(),
                    forall|i: int| 0 <= i < awt0.len() ==> #[trigger] are_written_to@[i] == awt0[i],
                    forall|i: int| awt0.len() <= i < are_written_to@.len() ==> forced(#[trigger] are_written_to@[i], cs),
                    f == unvisited(visited@),
                    are_written_to@ == done + outputs@.subrange(0, k as int).filter(f),
                decreases outputs@.len() - k,
            {
                let o = outputs[k];
                proof {
                    crate::simple_planner::lemma_chosen_indices_below(n as nat, cs, (ci, 0usize), o);
                    reveal_with_fuel(Seq::filter, 1);
                    assert(outputs@.subrange(0, k + 1).drop_last() =~= outputs@.subrange(0, k as int));
                    assert(outputs@.subrange(0, k + 1).last() == o);
                }
                if !visited[o] {
                    are_written_to.push(o);
                    proof {
                        assert(outputs@.contains(o));
                        assert forall|m: MethodView| #[trigger] cs[ci as int].methods.contains(m) implies m.outputs.contains(o) by {
                            assert(m == cs[ci as int].methods[0]);
                        }
                        assert(forces(cs, ci as int, o));
                    }
                }
                proof {
                    assert(are_written_to@ =~= done + outputs@.subrange(0, k + 1).filter(f));
                }
                k += 1;
            }
            proof {
                assert(outputs@.subrange(0, outputs@.len() as int) =~= outputs@);
                assert(sole_outputs(cs[ci as int]) == outputs@);
                assert(are_written_to@ =~= awt0 + enforced_outputs(cs, cis@.subrange(0, j + 1), visited@));
            }
        } else {
            proof {
                assert(crate::constraint::method_views(methods@).len() == methods@.len());
                assert(sole_outputs(cs[ci as int]) == Seq::<usize>::empty());
                reveal_with_fuel(Seq::filter, 1);
                assert(Seq::<usize>::empty().filter(f) =~= Seq::<usize>::empty());
                assert(are_written_to@ =~= awt0 + enforced_outputs(cs, cis@.subrange(0, j + 1), visited@));
            }
        }
        j += 1;
    }
    assert(cis@.subrange(0, cis@.len() as int) =~= cis@);
}

/// Prunes the component from variable `start`, which is known to be written: see
/// [`prune_constraints`]. Only the constraints of the component change: each keeps, in order,
/// its methods that write no variable whose writer was found to be another constraint listed for
/// it ([`pruned_with`]).
pub fn prune<T: 'static>(
    var_to_constraints: &mut Vec<Vec<usize>>,
    start: usize,
    can_stay: &mut Vec<bool>,
    component: &mut Component<T>,
)
    requires
        old(component).wf(),
        var_map_wf(old(var_to_constraints)@, old(component).n_vars(), old(component).constraints_view().len()),
        start < old(component).n_vars(),
        old(component).n_vars() <= old(can_stay)@.len(),
    ensures
        final(component).wf(),
        final(component).same_except_constraints(old(component)),
        methods_pruned(old(component).constraints_view(), final(component).constraints_view()),
        var_map_wf(final(var_to_constraints)@, old(component).n_vars(), old(component).constraints_view().len()),
        forall|v: int, c: usize|
            0 <= v < old(component).n_vars() && #[trigger] final(var_to_constraints)@[v]@.contains(c)
                ==> old(var_to_constraints)@[v]@.contains(c),
        final(can_stay)@.len() == old(can_stay)@.len(),
        forall|v: int| 0 <= v < final(can_stay)@.len() && #[trigger] final(can_stay)@[v] ==> old(can_stay)@[v],
        !final(can_stay)@[start as int],
        forall|v: usize|
            v < old(component).n_vars() && old(can_stay)@[v as int] && !#[trigger] final(can_stay)@[v as int] && v != start
                ==> forced(v, final(component).constraints_view()),
        exists|w: Seq<Option<usize>>|
            #[trigger] pruned_with(
                old(component).constraints_view(),
                final(component).constraints_view(),
                old(var_to_constraints)@,
                final(can_stay)@,
                start,
                old(component).n_vars(),
                w,
            ),
        forall|p: Seq<(usize, usize)>|
            #[trigger] is_elimination_plan(old(component).constraints_view(), p) ==> uses_present_methods(
                final(component).constraints_view(),
                old(component).constraints_view(),
                p,
            ),
{
    let n = component.n_variables();
    let mut constraints = component.take_constraints();
    let ghost taken = *component;
    prune_constraints(var_to_constraints, start, can_stay, n, &mut constraints);
    component.set_constraints(constraints);
    proof {
        Component::lemma_same_except_constraints(*component, taken);
        Component::lemma_same_except_constraints(taken, *old(component));
        Component::lemma_same_except_constraints_trans(*component, taken, *old(component));
        assert forall|p: Seq<(usize, usize)>|
            #[trigger] is_elimination_plan(old(component).constraints_view(), p) implies uses_present_methods(
                component.constraints_view(),
                old(component).constraints_view(),
                p,
            ) by {
            lemma_plan_uses_own_methods(old(component).constraints_view(), p);
        }
    }
}

} // verus!
