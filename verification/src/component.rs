//! A [`Component`]: a set of variables with values, and constraints between them.

use crate::activation::{State, VariableActivation};
use crate::constraint::{str_equal, Constraint, ConstraintView};
use crate::error::{ComponentError, PlanError, SolveError};
use crate::hierarchical_planner::{hierarchical_planner, keepable_after, plan_enforces, prefix_keepable, runs_in_order, writes_disjoint, writes_none_of, writes_nowhere_spec, OwnedEnforcedConstraint, OwnedPlan};
use crate::priority_adjuster::{adjust_priorities, adjusted};
use crate::solver::{par_solve, pending_first, ran, unwritten};
use crate::vertex::{indices_below, Vertex};
use crate::event::{Event, Ready};
use crate::method::{Identity, Method};
use crate::name_map::{lookup, NameMap};
use crate::ranking::SortRanker;
use crate::simple_planner::{constraint_views, is_elimination_plan, system_wf};
use crate::util::{decimal, usize_to_string};
use crate::variable_information::{EventCallback, Status, VariableInfo};
use vstd::prelude::*;

verus! {

broadcast use vstd::seq_lib::group_seq_properties;

/// The name of the constraint that pins variable `index`.
pub open spec fn pin_name(index: usize) -> Seq<char> {
    "pin"@ + decimal(index as nat)
}

/// Holds of the constraints that do not pin variable `index`: those whose first method is not
/// named after the pin of `index`.
pub open spec fn not_pinning(index: usize) -> spec_fn(ConstraintView) -> bool {
    |c: ConstraintView| !(c.methods.len() > 0 && c.methods[0].name == pin_name(index))
}

/// A collection of variables to which constraints can be applied.
#[verifier::reject_recursive_types(T)]
#[derive(Clone, Debug, PartialEq)]
pub struct Component<T: 'static> {
    name: String,
    name_to_index: NameMap,
    variable_information: Vec<VariableInfo<T, SolveError>>,
    variable_activations: Vec<VariableActivation<T, SolveError>>,
    constraints: Vec<Constraint<T>>,
    ranker: SortRanker,
    updated_since_last_solve: Vec<usize>,
    n_ready: usize,
    generation: usize,
}

impl<T: 'static> Component<T> {
    /// The name of the component.
    pub closed spec fn name_view(&self) -> Seq<char> {
        self.name@
    }

    /// The number of variables.
    pub closed spec fn n_vars(&self) -> nat {
        self.variable_activations@.len()
    }

    /// The variables' names and indices.
    pub closed spec fn names(&self) -> Seq<(Seq<char>, usize)> {
        self.name_to_index@
    }

    /// The index of the variable named `name`, if there is one.
    pub open spec fn index_of(&self, name: Seq<char>) -> Option<usize> {
        lookup(self.names(), name)
    }

    /// The value of the variable named `name`, if there is one.
    pub open spec fn value_of(&self, name: Seq<char>) -> Option<T> {
        match self.index_of(name) {
            Some(i) => Some(self.values()[i as int].shared_state.value_spec()),
            None => None,
        }
    }

    /// `after` is this component with variable `i` set to `value`: the variable is ready with the
    /// value and marked as set, ranked highest, and takes events from the current generation on;
    /// the other variables keep their values.
    pub open spec fn variable_set(&self, after: &Self, i: usize, value: T) -> bool {
        &&& after.values() == self.values().update(i as int, after.values()[i as int])
        &&& after.values()[i as int].shared_state.value_spec() == value
        &&& after.values()[i as int].shared_state.state_spec() == State::<SolveError>::Ready
        &&& after.ranking_view() == seq![i] + self.ranking_view().filter(crate::ranking::other_than(i))
        &&& after.updated().contains(i)
        &&& forall|v: usize| #[trigger] after.updated().contains(v) ==> v == i || self.updated().contains(v)
        &&& after.infos()[i as int].generation_spec() == self.generation_spec()
        &&& after.infos()[i as int].status_spec() == self.infos()[i as int].status_spec()
    }

    /// `after` is this component with variable `i` pinned: only its constraints differ, and they
    /// are this component's constraints followed by one more, with no name, whose only method is
    /// named [`pin_name`] of `i`, is not a stay method, and reads and writes `i` alone.
    pub open spec fn pinned(&self, after: &Self, i: usize) -> bool {
        &&& after.same_except_constraints(self)
        &&& after.constraints_view().len() == self.constraints_view().len() + 1
        &&& after.constraints_view().drop_last() == self.constraints_view()
        &&& after.constraints_view().last().name == Seq::<char>::empty()
        &&& after.constraints_view().last().methods.len() == 1
        &&& after.constraints_view().last().methods[0].name == pin_name(i)
        &&& after.constraints_view().last().methods[0].inputs == seq![i]
        &&& after.constraints_view().last().methods[0].outputs == seq![i]
        &&& !after.constraints_view().last().methods[0].is_stay
    }

    /// `after` holds the values that running a plan for this component's constraints gives: a plan
    /// that enforces each constraint once, runs in order, writes each variable at most once, and
    /// keeps the ranked variables greedily; and `after` ranks its variables as adjusting this
    /// component's ranking to that plan gives ([`adjusted`]).
    pub open spec fn solved_into(&self, after: &Self) -> bool where T: Clone {
        exists|plan: Seq<OwnedEnforcedConstraint<Method<T>>>, map: Seq<int>|
            #![trigger plan_enforces(self.constraints_view(), plan, map)]
            plan_enforces(self.constraints_view(), plan, map) && runs_in_order(plan) && writes_disjoint(plan) && ran(
                plan,
                self.values(),
                after.values(),
            ) && self.keeps_greedily(plan) && adjusted(plan, self.ranking_view(), after.ranking_view())
    }

    /// `plan` writes no variable of the ranking for which some elimination plan leaves it
    /// unwritten together with each variable ranked before it that `plan` leaves unwritten
    /// ([`keepable_after`]): the ranked variables are kept greedily, in order.
    pub open spec fn keeps_greedily(&self, plan: Seq<OwnedEnforcedConstraint<Method<T>>>) -> bool {
        forall|i: int|
            0 <= i < self.ranking_view().len() && #[trigger] keepable_after(self.constraints_view(), self.ranking_view(), i, plan)
                ==> writes_nowhere_spec(plan, self.ranking_view()[i])
    }

    /// `after` holds the values this component holds for the variables ranked first, as far as
    /// some elimination plan leaves them unwritten: when one leaves the first `k` variables of the
    /// ranking unwritten, each of them has the same value in `after`.
    pub open spec fn keeps_ranked(&self, after: &Self) -> bool {
        forall|k: int|
            0 <= k <= self.ranking_view().len() && #[trigger] prefix_keepable(self.constraints_view(), self.ranking_view(), k)
                ==> forall|j: int|
                0 <= j < k ==> #[trigger] after.values()[self.ranking_view()[j] as int] == self.values()[self.ranking_view()[j] as int]
    }

    /// The values of the variables.
    pub closed spec fn values(&self) -> Seq<VariableActivation<T, SolveError>> {
        self.variable_activations@
    }

    /// The information about each variable.
    pub closed spec fn infos(&self) -> Seq<VariableInfo<T, SolveError>> {
        self.variable_information@
    }

    /// The constraints of the component.
    pub closed spec fn constraints_view(&self) -> Seq<ConstraintView> {
        constraint_views(self.constraints@)
    }

    /// The ranking of the variables, highest first.
    pub closed spec fn ranking_view(&self) -> Seq<usize> {
        self.ranker@
    }

    /// The variables set since the last update.
    pub closed spec fn updated(&self) -> Seq<usize> {
        self.updated_since_last_solve@
    }

    /// The generation of the next update.
    pub closed spec fn generation_spec(&self) -> usize {
        self.generation
    }

    /// The parts of the component other than its constraints agree with those of `other`.
    pub closed spec fn same_except_constraints(&self, other: &Self) -> bool {
        &&& self.name == other.name
        &&& self.name_to_index == other.name_to_index
        &&& self.variable_information == other.variable_information
        &&& self.variable_activations == other.variable_activations
        &&& self.ranker == other.ranker
        &&& self.updated_since_last_solve == other.updated_since_last_solve
        &&& self.n_ready == other.n_ready
        &&& self.generation == other.generation
    }

    /// There is a value for each variable.
    pub proof fn lemma_values_len(&self)
        ensures
            self.values().len() == self.n_vars(),
    {
    }

    /// Components that differ at most in their constraints agree on everything else.
    pub proof fn lemma_same_except_constraints(a: Self, b: Self)
        requires
            a.same_except_constraints(&b),
        ensures
            a.name_view() == b.name_view(),
            a.n_vars() == b.n_vars(),
            a.names() == b.names(),
            a.values() == b.values(),
            a.infos() == b.infos(),
            a.ranking_view() == b.ranking_view(),
            a.updated() == b.updated(),
            a.generation_spec() == b.generation_spec(),
            a.structure_wf() == b.structure_wf(),
            b.same_except_constraints(&a),
    {
    }

    /// Differing at most in the constraints is transitive.
    pub proof fn lemma_same_except_constraints_trans(a: Self, b: Self, c: Self)
        requires
            a.same_except_constraints(&b),
            b.same_except_constraints(&c),
        ensures
            a.same_except_constraints(&c),
    {
    }

    /// The bookkeeping of the component agrees with its number of variables.
    pub open spec fn structure_wf(&self) -> bool {
        &&& self.infos().len() == self.n_vars()
        &&& self.ranking_view().len() == self.n_vars()
        &&& crate::ranking::is_ranking(self.ranking_view(), self.n_vars())
        &&& crate::name_map::unique_names(self.names())
        &&& forall|i: int| 0 <= i < self.names().len() ==> (#[trigger] self.names()[i]).1 < self.n_vars()
        &&& self.updated().no_duplicates()
        &&& forall|i: int| 0 <= i < self.updated().len() ==> #[trigger] self.updated()[i] < self.n_vars()
        &&& forall|i: int| 0 <= i < self.n_vars() ==> !((#[trigger] self.values()[i]).shared_state.state_spec() is Pending)
    }

    /// The component is well formed and its constraints only reference its variables.
    pub open spec fn wf(&self) -> bool {
        &&& self.structure_wf()
        &&& system_wf(self.n_vars(), self.constraints_view())
    }

    /// Constructs a new component with the specified name, variable values and constraints.
    /// The variables have no names yet; each was just set, and is ranked by its index.
    pub fn new(name: String, values: Vec<T>, constraints: Vec<Constraint<T>>) -> (r: Self)
        ensures
            r.name_view() == name@,
            r.n_vars() == values@.len(),
            forall|i: int| 0 <= i < values@.len() ==> (#[trigger] r.values()[i]).shared_state.value_spec() == values@[i]
                && r.values()[i].shared_state.state_spec() == State::<SolveError>::Ready,
            r.names() == Seq::<(Seq<char>, usize)>::empty(),
            r.constraints_view() == constraint_views(constraints@),
            forall|i: int| 0 <= i < values@.len() ==> #[trigger] r.ranking_view()[i] == i,
            forall|i: int| 0 <= i < values@.len() ==> #[trigger] r.updated()[i] == i,
            r.updated().len() == values@.len(),
            forall|i: int| 0 <= i < values@.len() ==> (#[trigger] r.infos()[i]).status_spec() == Status::Ready
                && r.infos()[i].generation_spec() == 0,
            r.generation_spec() == 0,
            r.structure_wf(),
            r.wf() <==> system_wf(values@.len(), constraint_views(constraints@)),
    {
        let n_variables = values.len();
        let ghost vals = values@;
        let mut activations: Vec<VariableActivation<T, SolveError>> = Vec::new();
        let mut information: Vec<VariableInfo<T, SolveError>> = Vec::new();
        let mut updated: Vec<usize> = Vec::new();
        let mut values = values;
        let mut i: usize = 0;
        while i < n_variables
            invariant
                i <= n_variables,
                n_variables == vals.len(),
                values@ =~= vals.subrange(i as int, n_variables as int),
                activations@.len() == i,
                information@.len() == i,
                updated@.len() == i,
                forall|j: int| 0 <= j < i ==> (#[trigger] activations@[j]).shared_state.value_spec() == vals[j]
                    && activations@[j].shared_state.state_spec() == State::<SolveError>::Ready,
                forall|j: int| 0 <= j < i ==> (#[trigger] information@[j]).status_spec() == Status::Ready
                    && information@[j].generation_spec() == 0,
                forall|j: int| 0 <= j < i ==> #[trigger] updated@[j] == j,
            decreases n_variables - i,
        {
            let value = values.remove(0);
            assert(value == vals[i as int]);
            activations.push(VariableActivation::from_value(value));
            information.push(VariableInfo::new(Status::Ready));
            updated.push(i);
            i += 1;
        }
        let r = Component {
            name,
            name_to_index: NameMap::new(),
            variable_information: information,
            variable_activations: activations,
            constraints,
            ranker: SortRanker::of_size(n_variables),
            updated_since_last_solve: updated,
            n_ready: n_variables,
            generation: 0,
        };
        assert(r.updated().no_duplicates());
        r
    }

    /// Constructs a new component as [`Component::new`] does, with the variables named by `name_to_idx`.
    pub fn new_with_map(name: String, name_to_idx: NameMap, values: Vec<T>, constraints: Vec<Constraint<T>>) -> (r:
        Self)
        requires
            name_to_idx.wf(),
            forall|i: int| 0 <= i < name_to_idx@.len() ==> (#[trigger] name_to_idx@[i]).1 < values@.len(),
        ensures
            r.name_view() == name@,
            r.n_vars() == values@.len(),
            forall|i: int| 0 <= i < values@.len() ==> (#[trigger] r.values()[i]).shared_state.value_spec() == values@[i]
                && r.values()[i].shared_state.state_spec() == State::<SolveError>::Ready,
            r.names() == name_to_idx@,
            r.constraints_view() == constraint_views(constraints@),
            forall|i: int| 0 <= i < values@.len() ==> #[trigger] r.ranking_view()[i] == i,
            forall|i: int| 0 <= i < values@.len() ==> #[trigger] r.updated()[i] == i,
            r.updated().len() == values@.len(),
            forall|i: int| 0 <= i < values@.len() ==> (#[trigger] r.infos()[i]).status_spec() == Status::Ready
                && r.infos()[i].generation_spec() == 0,
            r.generation_spec() == 0,
            r.structure_wf(),
            r.wf() <==> system_wf(values@.len(), constraint_views(constraints@)),
    {
        let mut component = Component::new(name, values, constraints);
        component.name_to_index = name_to_idx;
        component
    }

    /// Returns the name of the component.
    pub fn name(&self) -> (r: &str)
        ensures
            r@ == self.name_view(),
    {
        self.name.as_str()
    }

    /// Sets the name of the component.
    pub fn set_name(&mut self, name: String)
        ensures
            final(self).name_view() == name@,
            final(self).n_vars() == old(self).n_vars(),
            final(self).names() == old(self).names(),
            final(self).values() == old(self).values(),
            final(self).infos() == old(self).infos(),
            final(self).constraints_view() == old(self).constraints_view(),
            final(self).ranking_view() == old(self).ranking_view(),
            final(self).updated() == old(self).updated(),
            final(self).generation_spec() == old(self).generation_spec(),
    {
        self.name = name;
    }

    /// Returns the names of the variables, in the order they were named.
    pub fn variable_names(&self) -> (r: Vec<&str>)
        ensures
            r@.len() == self.names().len(),
            forall|i: int| 0 <= i < r@.len() ==> (#[trigger] r@[i])@ == self.names()[i].0,
    {
        self.name_to_index.keys()
    }

    /// The names of the variables with their indices, in the order they were named.
    pub(crate) fn name_entries(&self) -> (r: &[(String, usize)])
        ensures
            crate::name_map::entry_views(r@) == self.names(),
    {
        self.name_to_index.entries()
    }

    /// Returns the index of the variable named `name`, if there is one.
    pub fn name_to_idx(&self, name: &str) -> (r: Option<usize>)
        requires
            self.structure_wf(),
        ensures
            r == self.index_of(name@),
    {
        self.name_to_index.get(name)
    }

    /// Returns the number of variables.
    pub fn n_variables(&self) -> (r: usize)
        ensures
            r == self.n_vars(),
    {
        self.variable_activations.len()
    }

    /// Returns the values of the variables.
    pub fn variables(&self) -> (r: &[VariableActivation<T, SolveError>])
        ensures
            r@ == self.values(),
    {
        self.variable_activations.as_slice()
    }

    /// Returns the value of variable `i`.
    pub fn get(&self, i: usize) -> (r: &VariableActivation<T, SolveError>)
        requires
            i < self.n_vars(),
        ensures
            *r == self.values()[i as int],
    {
        &self.variable_activations[i]
    }

    /// Returns the constraints of the component.
    pub fn constraints(&self) -> (r: &[Constraint<T>])
        ensures
            constraint_views(r@) == self.constraints_view(),
    {
        self.constraints.as_slice()
    }

    /// Returns the ranking of the variables, highest first.
    pub fn ranking(&self) -> (r: Vec<usize>)
        ensures
            r@ == self.ranking_view(),
    {
        self.ranker.ranking()
    }

    /// Adds a constraint.
    pub fn push(&mut self, constraint: Constraint<T>)
        ensures
            final(self).constraints_view() == old(self).constraints_view().push(constraint@),
            final(self).same_except_constraints(old(self)),
    {
        let ghost cv = constraint@;
        self.constraints.push(constraint);
        assert(self.constraints_view() =~= old(self).constraints_view().push(cv));
    }

    /// Removes the last constraint and returns it, if there is one.
    pub fn pop(&mut self) -> (r: Option<Constraint<T>>)
        ensures
            old(self).constraints_view().len() == 0 ==> r is None && final(self).constraints_view()
                == old(self).constraints_view(),
            old(self).constraints_view().len() > 0 ==> (r matches Some(c) && c@ == old(self).constraints_view().last()
                && final(self).constraints_view() == old(self).constraints_view().drop_last()),
            final(self).same_except_constraints(old(self)),
    {
        let r = self.constraints.pop();
        assert(self.constraints_view() =~= old(self).constraints_view().subrange(
            0,
            self.constraints@.len() as int,
        ));
        r
    }

    /// Removes the constraint at `idx` and returns it.
    pub fn remove_constraint(&mut self, idx: usize) -> (r: Constraint<T>)
        requires
            idx < old(self).constraints_view().len(),
        ensures
            r@ == old(self).constraints_view()[idx as int],
            final(self).constraints_view() == old(self).constraints_view().remove(idx as int),
            final(self).same_except_constraints(old(self)),
    {
        let r = self.constraints.remove(idx);
        assert(self.constraints_view() =~= old(self).constraints_view().remove(idx as int));
        r
    }

    /// Takes the constraints out of the component, leaving it without constraints.
    pub(crate) fn take_constraints(&mut self) -> (r: Vec<Constraint<T>>)
        ensures
            constraint_views(r@) == old(self).constraints_view(),
            final(self).constraints_view() == Seq::<ConstraintView>::empty(),
            final(self).same_except_constraints(old(self)),
    {
        let mut constraints = Vec::new();
        std::mem::swap(&mut constraints, &mut self.constraints);
        assert(self.constraints_view() =~= Seq::<ConstraintView>::empty());
        constraints
    }

    /// Replaces the constraints of the component.
    pub(crate) fn set_constraints(&mut self, constraints: Vec<Constraint<T>>)
        ensures
            final(self).constraints_view() == constraint_views(constraints@),
            final(self).same_except_constraints(old(self)),
    {
        self.constraints = constraints;
    }

    /// Returns the first constraint named `name`.
    pub fn constraint(&self, name: &str) -> (r: &Constraint<T>)
        requires
            exists|i: int| 0 <= i < self.constraints_view().len() && (#[trigger] self.constraints_view()[i]).name
                == name@,
        ensures
            exists|i: int|
                0 <= i < self.constraints_view().len() && self.constraints_view()[i] == r@ && r@.name == name@
                    && forall|j: int| 0 <= j < i ==> (#[trigger] self.constraints_view()[j]).name != name@,
    {
        let mut i: usize = 0;
        while i < self.constraints.len()
            invariant
                i <= self.constraints@.len(),
                forall|j: int| 0 <= j < i ==> (#[trigger] self.constraints_view()[j]).name != name@,
                exists|k: int| i <= k < self.constraints_view().len() && (#[trigger] self.constraints_view()[k]).name
                    == name@,
            decreases self.constraints@.len() - i,
        {
            assert(self.constraints_view()[i as int] == self.constraints@[i as int]@);
            if str_equal(self.constraints[i].name(), name) {
                return &self.constraints[i];
            }
            i += 1;
        }
        &self.constraints[0]
    }

    /// Returns the constraints of the component, to be changed in place.
    pub fn constraints_mut(&mut self) -> (r: &mut [Constraint<T>])
        ensures
            constraint_views(r@) == old(self).constraints_view(),
            final(self).constraints_view() == constraint_views(final(r)@),
            final(self).same_except_constraints(old(self)),
            final(self).values() == old(self).values(),
    {
        self.constraints.as_mut_slice()
    }

    /// Returns the first constraint named `name`, to be changed in place.
    pub fn constraint_mut(&mut self, name: &str) -> (r: &mut Constraint<T>)
        requires
            exists|i: int| 0 <= i < old(self).constraints_view().len() && (#[trigger] old(self).constraints_view()[i]).name
                == name@,
        ensures
            exists|i: int|
                0 <= i < old(self).constraints_view().len() && old(self).constraints_view()[i] == r@ && r@.name == name@
                    && (forall|j: int| 0 <= j < i ==> (#[trigger] old(self).constraints_view()[j]).name != name@)
                    && final(self).constraints_view() == old(self).constraints_view().update(i, final(r)@),
            final(self).same_except_constraints(old(self)),
    {
        let mut i: usize = 0;
        while i < self.constraints.len() && !str_equal(self.constraints[i].name(), name)
            invariant
                self == old(self),
                i <= self.constraints@.len(),
                forall|j: int| 0 <= j < i ==> (#[trigger] self.constraints_view()[j]).name != name@,
                exists|k: int| i <= k < self.constraints_view().len() && (#[trigger] self.constraints_view()[k]).name
                    == name@,
            decreases self.constraints@.len() - i,
        {
            assert(self.constraints_view()[i as int] == self.constraints@[i as int]@);
            i += 1;
        }
        assert(self.constraints_view()[i as int] == self.constraints@[i as int]@);
        let ghost before = self.constraints@;
        assert(self.constraints_view()[i as int] == before[i as int]@);
        let r = &mut self.constraints[i];
        proof {
            assert(constraint_views(before.update(i as int, *final(r))) =~= constraint_views(before).update(i as int, final(r)@));
        }
        r
    }

    /// Returns whether a variable has been set since the last update.
    pub fn is_modified(&self) -> (r: bool)
        ensures
            r == (self.updated().len() > 0),
    {
        self.updated_since_last_solve.len() > 0
    }

    /// Returns the latest value of the variable named `var`, or `None` if there is no such variable.
    pub fn get_variable(&self, var: &str) -> (r: Option<T>) where T: Clone
        requires
            self.structure_wf(),
        ensures
            match self.value_of(var@) {
                Some(value) => (r matches Some(v) && vstd::pervasive::cloned(value, v)),
                None => r is None,
            },
    {
        match self.name_to_index.get(var) {
            Some(idx) => {
                proof {
                    let j = choose|j: int| 0 <= j < self.names().len() && (#[trigger] self.names()[j]).0 == var@;
                    assert(self.names()[j].1 == idx);
                }
                Some(self.variable_activations[idx].latest_value())
            },
            None => None,
        }
    }

    /// Sets the value of the variable named `var`, and ranks it highest.
    /// Fails with [`ComponentError::NoSuchVariable`] if there is no such variable.
    pub fn set_variable(&mut self, var: &str, value: T) -> (r: Result<(), ComponentError>)
        requires
            old(self).wf(),
        ensures
            final(self).wf(),
            match old(self).index_of(var@) {
                Some(i) => r == Ok::<(), ComponentError>(()) && old(self).variable_set(&*final(self), i, value),
                None => r == Err::<(), ComponentError>(ComponentError::NoSuchVariable) && *final(self) == *old(self),
            },
            final(self).name_view() == old(self).name_view(),
            final(self).n_vars() == old(self).n_vars(),
            final(self).names() == old(self).names(),
            final(self).constraints_view() == old(self).constraints_view(),
            final(self).generation_spec() == old(self).generation_spec(),
    {
        match self.name_to_index.get(var) {
            Some(idx) => {
                proof {
                    let j = choose|j: int| 0 <= j < self.names().len() && (#[trigger] self.names()[j]).0 == var@;
                    assert(self.names()[j].1 == idx);
                }
                if !crate::constraint::contains_index(self.updated_since_last_solve.as_slice(), idx) {
                    self.updated_since_last_solve.push(idx);
                }
                self.ranker.touch(idx);
                self.variable_activations.set(idx, VariableActivation::from_value(value));
                let generation = self.generation;
                self.variable_information[idx].set_generation(generation);
                proof {
                    assert(self.values() =~= old(self).values().update(idx as int, self.values()[idx as int]));
                }
                Ok(())
            },
            None => Err(ComponentError::NoSuchVariable),
        }
    }

    /// Subscribes a listener to the variable named `variable`, and calls it with the variable's
    /// current state. Fails with [`ComponentError::NoSuchVariable`] if there is no such variable.
    pub fn subscribe(&mut self, variable: &str, callback: EventCallback<T, SolveError>) -> (r: Result<
        (),
        ComponentError,
    >)
        requires
            old(self).wf(),
        ensures
            final(self).wf(),
            match old(self).index_of(variable@) {
                Some(i) => r == Ok::<(), ComponentError>(()) && final(self).infos()[i as int].subscribed()
                    && final(self).infos()[i as int].generation_spec() == old(self).infos()[i as int].generation_spec()
                    && final(self).infos()[i as int].status_spec() == old(self).infos()[i as int].status_spec()
                    && forall|j: int| 0 <= j < old(self).infos().len() && j != i ==> #[trigger] final(self).infos()[j]
                    == old(self).infos()[j],
                None => r == Err::<(), ComponentError>(ComponentError::NoSuchVariable) && final(self).infos()
                    == old(self).infos(),
            },
            final(self).infos().len() == old(self).infos().len(),
            final(self).name_view() == old(self).name_view(),
            final(self).n_vars() == old(self).n_vars(),
            final(self).names() == old(self).names(),
            final(self).values() == old(self).values(),
            final(self).constraints_view() == old(self).constraints_view(),
            final(self).ranking_view() == old(self).ranking_view(),
            final(self).updated() == old(self).updated(),
            final(self).generation_spec() == old(self).generation_spec(),
    {
        match self.name_to_index.get(variable) {
            Some(index) => {
                proof {
                    let j = choose|j: int| 0 <= j < self.names().len() && (#[trigger] self.names()[j]).0 == variable@;
                    assert(self.names()[j].1 == index);
                }
                // Call the callback with the current state of the variable
                {
                    let shared_state = self.variable_activations[index].shared_state();
                    let value = shared_state.current_value();
                    match shared_state.get_state() {
                        State::Pending => callback.on_event(Event::Pending),
                        State::Ready => callback.on_event(Event::Ready(Ready::Changed(value))),
                        State::Error(errors) => callback.on_event(Event::Error(errors)),
                    }
                }
                // Update the stored callback
                self.variable_information[index].subscribe(callback);
                Ok(())
            },
            None => Err(ComponentError::NoSuchVariable),
        }
    }

    /// Removes the listener of the variable named `variable`.
    /// Fails with [`ComponentError::NoSuchVariable`] if there is no such variable.
    pub fn unsubscribe(&mut self, variable: &str) -> (r: Result<(), ComponentError>)
        requires
            old(self).wf(),
        ensures
            final(self).wf(),
            match old(self).index_of(variable@) {
                Some(i) => r == Ok::<(), ComponentError>(()) && !final(self).infos()[i as int].subscribed()
                    && final(self).infos()[i as int].generation_spec() == old(self).infos()[i as int].generation_spec()
                    && final(self).infos()[i as int].status_spec() == old(self).infos()[i as int].status_spec()
                    && forall|j: int| 0 <= j < old(self).infos().len() && j != i ==> #[trigger] final(self).infos()[j]
                    == old(self).infos()[j],
                None => r == Err::<(), ComponentError>(ComponentError::NoSuchVariable) && final(self).infos()
                    == old(self).infos(),
            },
            final(self).infos().len() == old(self).infos().len(),
            final(self).name_view() == old(self).name_view(),
            final(self).n_vars() == old(self).n_vars(),
            final(self).names() == old(self).names(),
            final(self).values() == old(self).values(),
            final(self).constraints_view() == old(self).constraints_view(),
            final(self).ranking_view() == old(self).ranking_view(),
            final(self).updated() == old(self).updated(),
            final(self).generation_spec() == old(self).generation_spec(),
    {
        match self.name_to_index.get(variable) {
            Some(index) => {
                proof {
                    let j = choose|j: int| 0 <= j < self.names().len() && (#[trigger] self.names()[j]).0 == variable@;
                    assert(self.names()[j].1 == index);
                }
                self.variable_information[index].unsubscribe();
                Ok(())
            },
            None => Err(ComponentError::NoSuchVariable),
        }
    }

    /// Pins the variable named `var`: adds a constraint named `pin` and the variable's index,
    /// whose only method reads and writes the variable and keeps its value.
    pub fn pin(&mut self, var: &str)
        requires
            old(self).wf(),
            old(self).index_of(var@) is Some,
        ensures
            final(self).wf(),
            final(self).same_except_constraints(old(self)),
            final(self).constraints_view().len() == old(self).constraints_view().len() + 1,
            final(self).constraints_view().drop_last() == old(self).constraints_view(),
            ({
                let i = old(self).index_of(var@)->0;
                let c = final(self).constraints_view().last();
                &&& c.name == Seq::<char>::empty()
                &&& c.methods.len() == 1
                &&& c.methods[0].name == pin_name(i)
                &&& c.methods[0].inputs == seq![i]
                &&& c.methods[0].outputs == seq![i]
                &&& !c.methods[0].is_stay
            }),
            old(self).pinned(final(self), old(self).index_of(var@)->0),
    {
        let idx = match self.name_to_index.get(var) {
            Some(idx) => idx,
            None => 0,
        };
        proof {
            let j = choose|j: int| 0 <= j < self.names().len() && (#[trigger] self.names()[j]).0 == var@;
            assert(self.names()[j].1 == idx);
        }
        let mut name = String::from_str("pin");
        let digits = usize_to_string(idx);
        name.append(digits.as_str());
        let mut inputs = Vec::new();
        inputs.push(idx);
        let mut outputs = Vec::new();
        outputs.push(idx);
        let m = Method::new(name, inputs, outputs, &Identity);
        let mut methods = Vec::new();
        methods.push(m);
        let c = Constraint::new(methods);
        proof {
            reveal_strlit("pin");
            let mv = c@.methods[0];
            assert(mv.inputs.contains(idx));
            assert forall|x: usize| #[trigger] c@.variables.contains(x) implies x < self.n_vars() by {
                let k = choose|k: int| 0 <= k < c@.methods.len() && (#[trigger] c@.methods[k].inputs.contains(x)
                    || c@.methods[k].outputs.contains(x));
                assert(k == 0);
            }
        }
        self.push(c);
        proof {
            crate::simple_planner::lemma_system_wf_push(self.n_vars(), old(self).constraints_view(), self.constraints_view().last());
        }
    }

    /// Removes the constraints that pin the variable named `var`: those whose first method
    /// is named `pin` and the variable's index.
    pub fn unpin(&mut self, var: &str)
        requires
            old(self).wf(),
            old(self).index_of(var@) is Some,
        ensures
            final(self).wf(),
            final(self).same_except_constraints(old(self)),
            final(self).constraints_view() == old(self).constraints_view().filter(not_pinning(old(self).index_of(var@)->0)),
    {
        let idx = match self.name_to_index.get(var) {
            Some(idx) => idx,
            None => 0,
        };
        let ghost i = self.index_of(var@)->0;
        proof {
            let j = choose|j: int| 0 <= j < self.names().len() && (#[trigger] self.names()[j]).0 == var@;
            assert(self.names()[j].1 == idx);
        }
        let mut pin = String::from_str("pin");
        let digits = usize_to_string(idx);
        pin.append(digits.as_str());
        proof {
            reveal_strlit("pin");
        }
        let ghost keep = not_pinning(i);
        let ghost old_cs = self.constraints_view();
        let old_constraints = self.take_constraints();
        let mut kept: Vec<Constraint<T>> = Vec::new();
        let mut k: usize = 0;
        while k < old_constraints.len()
            invariant
                k <= old_constraints@.len(),
                constraint_views(old_constraints@) == old_cs,
                pin@ == pin_name(i),
                keep == not_pinning(i),
                constraint_views(kept@) == old_cs.subrange(0, k as int).filter(keep),
            decreases old_constraints@.len() - k,
        {
            let c = &old_constraints[k];
            let methods = c.methods();
            let pinned = methods.len() > 0 && str_equal(methods[0].name(), pin.as_str());
            proof {
                reveal_with_fuel(Seq::filter, 1);
                assert(old_cs.subrange(0, k + 1).drop_last() =~= old_cs.subrange(0, k as int));
                assert(old_cs[k as int] == c@);
                if methods@.len() > 0 {
                    assert(c@.methods[0] == methods@[0]@);
                }
            }
            if !pinned {
                let ghost cv = c@;
                kept.push(c.duplicate());
                assert(constraint_views(kept@) =~= constraint_views(kept@).drop_last().push(cv));
            }
            k += 1;
        }
        assert(old_cs.subrange(0, old_cs.len() as int) =~= old_cs);
        proof {
            crate::simple_planner::lemma_system_wf_filter(self.n_vars(), old_cs, keep);
        }
        self.set_constraints(kept);
    }
}

impl<T: Clone + 'static> Component<T> {
    /// Sets the value of variable `i` directly, without ranking it or marking it as set.
    pub fn set(&mut self, i: usize, value: T)
        requires
            old(self).wf(),
            i < old(self).n_vars(),
        ensures
            final(self).wf(),
            final(self).values() == old(self).values().update(i as int, final(self).values()[i as int]),
            final(self).values()[i as int].shared_state.value_spec() == value,
            final(self).values()[i as int].shared_state.state_spec() == State::<SolveError>::Ready,
            final(self).name_view() == old(self).name_view(),
            final(self).names() == old(self).names(),
            final(self).infos() == old(self).infos(),
            final(self).constraints_view() == old(self).constraints_view(),
            final(self).ranking_view() == old(self).ranking_view(),
            final(self).updated() == old(self).updated(),
            final(self).generation_spec() == old(self).generation_spec(),
    {
        self.variable_activations.set(i, VariableActivation::from_value(value));
    }

    /// Finds a plan with the hierarchical planner, using the current ranking of the variables, and
    /// runs it: see [`Component::solve`]. Fails with [`PlanError::Overconstrained`] when no plan is
    /// found, which happens only when the constraints have no elimination plan, and then leaves the
    /// component as it was. The variables ranked highest, those set last, keep their values: when
    /// some elimination plan leaves the first `k` variables of the ranking unwritten, they all do;
    /// and in turn, each ranked variable is left unwritten whenever some elimination plan leaves it
    /// unwritten together with those ranked before it that the plan run leaves unwritten
    /// ([`Component::keeps_greedily`]). The information of each variable the plan writes is told,
    /// in the generation of the update, that the variable is pending before it is told of the
    /// outcome ([`pending_first`]).
    pub fn par_update(&mut self) -> (r: Result<(), PlanError>)
        requires
            old(self).wf(),
            old(self).generation_spec() < usize::MAX,
        ensures
            final(self).wf(),
            final(self).name_view() == old(self).name_view(),
            final(self).names() == old(self).names(),
            final(self).constraints_view() == old(self).constraints_view(),
            r is Err ==> *final(self) == *old(self),
            r is Err ==> forall|p: Seq<(usize, usize)>| !#[trigger] is_elimination_plan(old(self).constraints_view(), p),
            r is Ok ==> final(self).generation_spec() == old(self).generation_spec() + 1 && final(self).updated().len()
                == 0 && exists|plan: Seq<OwnedEnforcedConstraint<Method<T>>>, map: Seq<int>|
                #![trigger plan_enforces(old(self).constraints_view(), plan, map)]
                plan_enforces(old(self).constraints_view(), plan, map) && runs_in_order(plan) && writes_disjoint(plan)
                    && ran(plan, old(self).values(), final(self).values()) && old(self).keeps_greedily(plan) && adjusted(
                    plan,
                    old(self).ranking_view(),
                    final(self).ranking_view(),
                ) && (forall|v: int|
                    0 <= v < old(self).n_vars() && !unwritten(plan, plan.len() as int, v) ==> #[trigger] pending_first(
                        old(self).infos()[v],
                        final(self).infos()[v],
                        old(self).generation_spec(),
                    )) && forall|v: int|
                    0 <= v < old(self).n_vars() && unwritten(plan, plan.len() as int, v) ==> #[trigger] final(self).values()[v]
                        == old(self).values()[v],
            forall|k: int|
                0 <= k <= old(self).ranking_view().len() && #[trigger] prefix_keepable(
                    old(self).constraints_view(),
                    old(self).ranking_view(),
                    k,
                ) ==> r is Ok && forall|j: int|
                    0 <= j < k ==> #[trigger] final(self).values()[old(self).ranking_view()[j] as int] == old(
                        self,
                    ).values()[old(self).ranking_view()[j] as int],
    {
        // Rank variables and run planner
        let ranking = self.ranker.ranking();
        let plan = match hierarchical_planner(self, ranking.as_slice()) {
            Ok(plan) => plan,
            Err(e) => return Err(e),
        };
        let ghost pv = plan@;
        let r = self.solve(plan);
        proof {
            assert forall|k: int|
                0 <= k <= old(self).ranking_view().len() && #[trigger] prefix_keepable(
                    old(self).constraints_view(),
                    old(self).ranking_view(),
                    k,
                ) implies forall|j: int|
                0 <= j < k ==> #[trigger] self.values()[old(self).ranking_view()[j] as int] == old(self).values()[old(
                    self,
                ).ranking_view()[j] as int] by {
                assert(writes_none_of(pv, ranking@, k));
                assert forall|j: int| 0 <= j < k implies #[trigger] self.values()[old(self).ranking_view()[j] as int] == old(
                    self,
                ).values()[old(self).ranking_view()[j] as int] by {
                    let x = ranking@[j];
                    assert(writes_nowhere_spec(pv, x));
                    assert(unwritten(pv, pv.len() as int, x as int));
                    assert(x < old(self).n_vars());
                }
            }
        }
        r
    }

    /// Same as [`Component::par_update`].
    pub fn update(&mut self) -> (r: Result<(), PlanError>)
        requires
            old(self).wf(),
            old(self).generation_spec() < usize::MAX,
        ensures
            final(self).wf(),
            final(self).name_view() == old(self).name_view(),
            final(self).names() == old(self).names(),
            final(self).constraints_view() == old(self).constraints_view(),
            r is Err ==> *final(self) == *old(self),
            r is Err ==> forall|p: Seq<(usize, usize)>| !#[trigger] is_elimination_plan(old(self).constraints_view(), p),
            r is Ok ==> final(self).generation_spec() == old(self).generation_spec() + 1 && final(self).updated().len()
                == 0 && exists|plan: Seq<OwnedEnforcedConstraint<Method<T>>>, map: Seq<int>|
                #![trigger plan_enforces(old(self).constraints_view(), plan, map)]
                plan_enforces(old(self).constraints_view(), plan, map) && runs_in_order(plan) && writes_disjoint(plan)
                    && ran(plan, old(self).values(), final(self).values()) && old(self).keeps_greedily(plan) && adjusted(
                    plan,
                    old(self).ranking_view(),
                    final(self).ranking_view(),
                ) && (forall|v: int|
                    0 <= v < old(self).n_vars() && !unwritten(plan, plan.len() as int, v) ==> #[trigger] pending_first(
                        old(self).infos()[v],
                        final(self).infos()[v],
                        old(self).generation_spec(),
                    )) && forall|v: int|
                    0 <= v < old(self).n_vars() && unwritten(plan, plan.len() as int, v) ==> #[trigger] final(self).values()[v]
                        == old(self).values()[v],
            forall|k: int|
                0 <= k <= old(self).ranking_view().len() && #[trigger] prefix_keepable(
                    old(self).constraints_view(),
                    old(self).ranking_view(),
                    k,
                ) ==> r is Ok && forall|j: int|
                    0 <= j < k ==> #[trigger] final(self).values()[old(self).ranking_view()[j] as int] == old(
                        self,
                    ).values()[old(self).ranking_view()[j] as int],
    {
        self.par_update()
    }

    /// Runs a plan found for the component: the ranking is adjusted to the plan, the variables are
    /// no longer marked as set, the methods of the plan run in order, and the generation advances.
    fn solve(&mut self, plan: OwnedPlan<Method<T>>) -> (r: Result<(), PlanError>)
        requires
            old(self).wf(),
            old(self).generation_spec() < usize::MAX,
            exists|map: Seq<int>|
                #![trigger plan_enforces(old(self).constraints_view(), plan@, map)]
                plan_enforces(old(self).constraints_view(), plan@, map) && runs_in_order(plan@) && writes_disjoint(plan@),
        ensures
            r is Ok,
            final(self).wf(),
            final(self).name_view() == old(self).name_view(),
            final(self).names() == old(self).names(),
            final(self).constraints_view() == old(self).constraints_view(),
            final(self).generation_spec() == old(self).generation_spec() + 1,
            final(self).updated().len() == 0,
            forall|v: int|
                0 <= v < old(self).n_vars() && unwritten(plan@, plan@.len() as int, v) ==> #[trigger] final(self).values()[v]
                    == old(self).values()[v],
            ran(plan@, old(self).values(), final(self).values()),
            adjusted(plan@, old(self).ranking_view(), final(self).ranking_view()),
            forall|v: int|
                0 <= v < old(self).n_vars() && !unwritten(plan@, plan@.len() as int, v) ==> #[trigger] pending_first(
                    old(self).infos()[v],
                    final(self).infos()[v],
                    old(self).generation_spec(),
                ),
    {
        let ghost cs = self.constraints_view();
        let ghost map = choose|map: Seq<int>|
            #![trigger plan_enforces(cs, plan@, map)]
            plan_enforces(cs, plan@, map) && runs_in_order(plan@) && writes_disjoint(plan@);
        proof {
            assert forall|i: int, k: int| 0 <= i < plan@.len() && 0 <= k < plan@[i].input_vars().len() implies #[trigger] plan@[i].input_vars()[k]
                < self.n_vars() by {
                assert(crate::hierarchical_planner::enforces(cs, plan@[i], map[i]));
                crate::hierarchical_planner::lemma_method_indices_below(self.n_vars(), cs, map[i], plan@[i].method_spec()@, plan@[i].input_vars()[k]);
            }
            assert forall|i: int, k: int| 0 <= i < plan@.len() && 0 <= k < plan@[i].output_vars().len() implies #[trigger] plan@[i].output_vars()[k]
                < self.n_vars() by {
                assert(crate::hierarchical_planner::enforces(cs, plan@[i], map[i]));
                crate::hierarchical_planner::lemma_method_indices_below(self.n_vars(), cs, map[i], plan@[i].method_spec()@, plan@[i].output_vars()[k]);
            }
            assert(indices_below(plan@, self.n_vars()));
        }
        self.ranker = adjust_priorities(plan.as_slice(), &self.ranker);
        self.updated_since_last_solve.clear();
        let component_name = self.name.clone();
        let generation = self.generation;
        let solved = par_solve(
            plan.as_slice(),
            &mut self.variable_activations,
            component_name,
            generation,
            &mut self.variable_information,
        );
        self.generation = self.generation + 1;
        proof {
            assert(self.updated() =~= Seq::<usize>::empty());
        }
        solved
    }
}

} // verus!
