//! Laws that relate the operations of the library to each other: what a read gives back of a
//! write, and which operations undo each other.

use crate::component::{not_pinning, pin_name, Component};
use crate::constraint::{lists_used_variables, not_named, used_by, ConstraintView};
use crate::constraint_system::ConstraintSystem;
use crate::hierarchical_planner::{keepable_after, lemma_single_writer, lemma_stay_removed};
use crate::priority_adjuster::{adjusted, law_adjusted_unique};
use crate::simple_planner::{is_elimination_plan, lemma_elimination_plan_covers, system_wf, writes};
use crate::vertex::Vertex;
use crate::method::MethodView;
use crate::variable_information::VariableInfo;
use vstd::prelude::*;

verus! {

broadcast use vstd::seq_lib::group_seq_properties;

/// Reading a variable of a component after setting it gives back the value that was set.
pub proof fn law_get_after_set<T>(before: Component<T>, after: Component<T>, name: Seq<char>, value: T)
    requires
        before.index_of(name) is Some,
        before.variable_set(&after, before.index_of(name)->0, value),
        after.names() == before.names(),
    ensures
        after.value_of(name) == Some(value),
{
}

/// Setting a variable of a component leaves the values of its other variables as they were.
pub proof fn law_set_keeps_others<T>(
    before: Component<T>,
    after: Component<T>,
    name: Seq<char>,
    other: Seq<char>,
    value: T,
)
    requires
        before.structure_wf(),
        before.index_of(name) is Some,
        before.index_of(other) is Some,
        before.index_of(other) != before.index_of(name),
        before.variable_set(&after, before.index_of(name)->0, value),
        after.names() == before.names(),
    ensures
        after.value_of(other) == before.value_of(other),
{
    let names = before.names();
    let j = choose|j: int| 0 <= j < names.len() && (#[trigger] names[j]).0 == other;
    let k = before.index_of(other)->0;
    assert(names[j].1 < before.n_vars());
    before.lemma_values_len();
    assert(k < before.values().len());
}

/// Setting a variable of a component ranks it highest.
pub proof fn law_set_ranks_highest<T>(before: Component<T>, after: Component<T>, i: usize, value: T)
    requires
        before.variable_set(&after, i, value),
    ensures
        after.ranking_view()[0] == i,
{
}

/// Reading a variable of a constraint system after setting it gives back the value that was set.
pub proof fn law_system_get_after_set<T>(
    before: ConstraintSystem<T>,
    after: ConstraintSystem<T>,
    component: Seq<char>,
    name: Seq<char>,
    value: T,
)
    requires
        before.component_spec(component).index_of(name) is Some,
        before.component_spec(component).variable_set(
            &after.component_spec(component),
            before.component_spec(component).index_of(name)->0,
            value,
        ),
        after.component_spec(component).names() == before.component_spec(component).names(),
    ensures
        after.component_spec(component).value_of(name) == Some(value),
{
    law_get_after_set(before.component_spec(component), after.component_spec(component), name, value);
}

/// Popping a constraint right after pushing one gives back the pushed constraint, and leaves
/// the component as it was.
pub proof fn law_pop_undoes_push<T>(
    a: Component<T>,
    b: Component<T>,
    c: Component<T>,
    pushed: ConstraintView,
    popped: ConstraintView,
)
    requires
        b.constraints_view() == a.constraints_view().push(pushed),
        b.same_except_constraints(&a),
        popped == b.constraints_view().last(),
        c.constraints_view() == b.constraints_view().drop_last(),
        c.same_except_constraints(&b),
    ensures
        popped == pushed,
        c.constraints_view() == a.constraints_view(),
        c.same_except_constraints(&a),
{
    Component::lemma_same_except_constraints_trans(c, b, a);
}

/// Filtering a sequence by a predicate that holds of all its entries keeps it as it is.
proof fn lemma_filter_keeps_all<A>(s: Seq<A>, p: spec_fn(A) -> bool)
    requires
        forall|k: int| 0 <= k < s.len() ==> p(#[trigger] s[k]),
    ensures
        s.filter(p) == s,
    decreases s.len(),
{
    reveal_with_fuel(Seq::filter, 1);
    if s.len() > 0 {
        let r = s.drop_last();
        assert forall|k: int| 0 <= k < r.len() implies p(#[trigger] r[k]) by {
            assert(r[k] == s[k]);
        }
        lemma_filter_keeps_all(r, p);
        assert(p(s[s.len() - 1]));
        assert(s.filter(p) =~= r.filter(p).push(s.last()));
    }
    assert(s.filter(p) =~= s);
}

/// Unpinning a variable right after pinning it, when no constraint pinned it before, leaves the
/// component as it was.
pub proof fn law_unpin_undoes_pin<T>(a: Component<T>, b: Component<T>, c: Component<T>, i: usize)
    requires
        forall|k: int| 0 <= k < a.constraints_view().len() ==> (not_pinning(i))(#[trigger] a.constraints_view()[k]),
        b.constraints_view().len() == a.constraints_view().len() + 1,
        b.constraints_view().drop_last() == a.constraints_view(),
        b.constraints_view().last().methods.len() == 1,
        b.constraints_view().last().methods[0].name == pin_name(i),
        b.same_except_constraints(&a),
        c.constraints_view() == b.constraints_view().filter(not_pinning(i)),
        c.same_except_constraints(&b),
    ensures
        c.constraints_view() == a.constraints_view(),
        c.same_except_constraints(&a),
{
    let s = a.constraints_view();
    let pin = b.constraints_view().last();
    assert(b.constraints_view() =~= s.push(pin));
    reveal_with_fuel(Seq::filter, 1);
    assert(s.push(pin).drop_last() =~= s);
    assert(!(not_pinning(i))(pin));
    lemma_filter_keeps_all(s, not_pinning(i));
    Component::lemma_same_except_constraints_trans(c, b, a);
}

/// Removing a method from a constraint right after adding it, when no method of the constraint
/// had its name before, gives back the methods from before, and the same variables.
pub proof fn law_remove_undoes_add(a: ConstraintView, b: ConstraintView, c: ConstraintView, m: MethodView)
    requires
        lists_used_variables(a.variables, a.methods),
        forall|k: int| 0 <= k < a.methods.len() ==> (#[trigger] a.methods[k]).name != m.name,
        b.name == a.name,
        b.methods == a.methods.push(m),
        c.name == b.name,
        c.methods == b.methods.filter(not_named(m.name)),
        lists_used_variables(c.variables, c.methods),
    ensures
        c.name == a.name,
        c.methods == a.methods,
        forall|x: usize| #[trigger] c.variables.contains(x) <==> a.variables.contains(x),
{
    reveal_with_fuel(Seq::filter, 1);
    assert(a.methods.push(m).drop_last() =~= a.methods);
    assert forall|k: int| 0 <= k < a.methods.len() implies (not_named(m.name))(#[trigger] a.methods[k]) by {}
    lemma_filter_keeps_all(a.methods, not_named(m.name));
    assert(c.methods == a.methods);
    assert forall|x: usize| #[trigger] c.variables.contains(x) <==> a.variables.contains(x) by {
        assert(used_by(c.methods, x) == used_by(a.methods, x));
    }
}

/// The information about a variable passed events of generations `gens` in turn, starting from
/// `infos[0]`: each event of a generation not older than the latest one seen is delivered, and
/// makes its generation the latest one seen; older events are dropped.
pub open spec fn passed_in_turn<T, E>(infos: Seq<VariableInfo<T, E>>, gens: Seq<usize>) -> bool {
    &&& infos.len() == gens.len() + 1
    &&& forall|k: int|
        0 <= k < gens.len() ==> (#[trigger] gens[k] >= infos[k].generation_spec() ==> infos[k + 1].generation_spec()
            == gens[k]) && (gens[k] < infos[k].generation_spec() ==> infos[k + 1].generation_spec()
            == infos[k].generation_spec())
}

/// The latest generation seen never decreases.
proof fn lemma_generations_grow<T, E>(infos: Seq<VariableInfo<T, E>>, gens: Seq<usize>, a: int, b: int)
    requires
        passed_in_turn(infos, gens),
        0 <= a <= b < infos.len(),
    ensures
        infos[a].generation_spec() <= infos[b].generation_spec(),
    decreases b - a,
{
    if a < b {
        lemma_generations_grow(infos, gens, a, b - 1);
        let k = b - 1;
        assert(gens[k] >= infos[k].generation_spec() ==> infos[k + 1].generation_spec() == gens[k]);
        assert(gens[k] < infos[k].generation_spec() ==> infos[k + 1].generation_spec() == infos[k].generation_spec());
        assert(k + 1 == b);
    }
}

/// Events reach a variable's listener in the order of their generations: once an event of some
/// generation has been delivered, no event of an earlier generation is delivered after it.
pub proof fn law_delivered_generations_never_decrease<T, E>(
    infos: Seq<VariableInfo<T, E>>,
    gens: Seq<usize>,
    a: int,
    b: int,
)
    requires
        passed_in_turn(infos, gens),
        0 <= a < b < gens.len(),
        gens[a] >= infos[a].generation_spec(),
        gens[b] >= infos[b].generation_spec(),
    ensures
        gens[a] <= gens[b],
{
    assert(infos[a + 1].generation_spec() == gens[a]);
    lemma_generations_grow(infos, gens, a + 1, b);
}

/// The variable ranked first can keep its value when a stay constraint on it can be planned: if
/// the constraints `cs`, with a stay constraint on that variable added, have an elimination plan,
/// then [`keepable_after`] holds of it, for any plan, so that the plan the hierarchical planner
/// finds leaves it unwritten.
pub proof fn law_first_ranked_stays<M: Vertex>(
    n: nat,
    cs: Seq<ConstraintView>,
    ranking: Seq<usize>,
    stay: ConstraintView,
    q: Seq<(usize, usize)>,
    plan: Seq<M>,
)
    requires
        ranking.len() > 0,
        system_wf(n, cs.push(stay)),
        stay.methods.len() == 1,
        stay.methods[0].outputs == seq![ranking[0]],
        is_elimination_plan(cs.push(stay), q),
    ensures
        keepable_after(cs, ranking, 0, plan),
{
    let p = lemma_stay_removed(n, cs, q, ranking[0], stay);
    assert(keepable_after(cs, ranking, 0, plan));
}

/// A pinned variable is held by its pin: in every elimination plan of the constraints of a
/// component pinned at variable `i`, the pin constraint is enforced by its only method, which
/// reads and writes `i` alone, and no entry that enforces one of the constraints from before the
/// pin writes `i`.
pub proof fn law_pinned_variable_held<T>(before: Component<T>, after: Component<T>, i: usize, p: Seq<(usize, usize)>)
    requires
        before.pinned(&after, i),
        after.wf(),
        is_elimination_plan(after.constraints_view(), p),
    ensures
        exists|a: int| 0 <= a < p.len() && #[trigger] p[a] == (before.constraints_view().len() as usize, 0usize),
        forall|k: int|
            0 <= k < p.len() && (#[trigger] p[k]).0 < before.constraints_view().len() ==> !writes(after.constraints_view(), p[k], i),
{
    let cs = after.constraints_view();
    let last = before.constraints_view().len() as int;
    assert(last == cs.len() - 1);
    lemma_elimination_plan_covers(cs, p, last);
    let a = choose|a: int| 0 <= a < p.len() && (#[trigger] p[a]).0 == last;
    assert(cs[last] == cs.last());
    assert(p[a].1 < cs[last].methods.len());
    assert(p[a].1 == 0);
    assert(cs[last].methods[0].outputs == seq![i]);
    assert(writes(cs, p[a], i));
    lemma_single_writer(after.n_vars(), cs, p, a, i);
    assert forall|k: int| 0 <= k < p.len() && (#[trigger] p[k]).0 < before.constraints_view().len() implies !writes(cs, p[k], i) by {
        assert(k != a);
    }
}

/// Pinning a variable in a constraint system pins it in its component: a component named `name`
/// that held variable `v` at index `i` gets the constraint that holds `i`, and every elimination
/// plan of its constraints leaves `i` to that constraint alone.
pub proof fn law_system_pin_holds<T>(
    before: ConstraintSystem<T>,
    after: ConstraintSystem<T>,
    name: Seq<char>,
    v: Seq<char>,
    p: Seq<(usize, usize)>,
)
    requires
        before.index_of(name) is Some,
        before.component_spec(name).index_of(v) is Some,
        after.index_of(name) == before.index_of(name),
        before.component_spec(name).pinned(&after.component_spec(name), before.component_spec(name).index_of(v)->0),
        after.component_spec(name).wf(),
        is_elimination_plan(after.component_spec(name).constraints_view(), p),
    ensures
        forall|k: int|
            0 <= k < p.len() && (#[trigger] p[k]).0 < before.component_spec(name).constraints_view().len() ==> !writes(
                after.component_spec(name).constraints_view(),
                p[k],
                before.component_spec(name).index_of(v)->0,
            ),
{
    law_pinned_variable_held(
        before.component_spec(name),
        after.component_spec(name),
        before.component_spec(name).index_of(v)->0,
        p,
    );
}

/// Updating a component ranks its variables in one way only: two components that both come from
/// `before` by running `plan` (each ranking adjusted to the plan, as an update does) rank their
/// variables alike.
pub proof fn law_update_ranking_determined<T>(
    before: Component<T>,
    a: Component<T>,
    b: Component<T>,
    plan: Seq<crate::hierarchical_planner::OwnedEnforcedConstraint<crate::method::Method<T>>>,
)
    requires
        before.structure_wf(),
        adjusted(plan, before.ranking_view(), a.ranking_view()),
        adjusted(plan, before.ranking_view(), b.ranking_view()),
    ensures
        a.ranking_view() == b.ranking_view(),
{
    law_adjusted_unique(plan, before.ranking_view(), a.ranking_view(), b.ranking_view());
}

} // verus!
