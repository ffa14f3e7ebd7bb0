//! The interfaces of methods, constraints and components, which the library's types implement.

use crate::component::Component;
use crate::constraint::{lists_used_variables, method_views, not_named, Constraint, ConstraintView};
use crate::error::{MethodFailure, PlanError, SolveError};
use crate::activation::VariableActivation;
use crate::method::{Method, MethodFunction, MethodResult, MethodView};
use crate::hierarchical_planner::{leaves_prefix, prefix_keepable};
use crate::simple_planner::{constraint_views, is_elimination_plan};
use crate::vertex::Vertex;
use vstd::prelude::*;

verus! {

/// A method: a vertex with a name and a function from the values of its inputs to those of
/// its outputs.
pub trait MethodLike: Vertex + Sized {
    /// The type of the values the function takes and gives.
    type Arg: 'static;

    /// What the method is, apart from its function.
    spec fn method_view(&self) -> MethodView;

    /// A method named `name` that reads `inputs` and writes `outputs` with `apply`.
    fn new(name: String, inputs: Vec<usize>, outputs: Vec<usize>, apply: MethodFunction<Self::Arg>) -> (r: Self)
        ensures
            r.method_view() == (MethodView { is_stay: false, name: name@, inputs: inputs@, outputs: outputs@ }),
    ;

    /// Runs the function on the values of the inputs. Fails if there are not as many values as
    /// inputs; otherwise gives as many values as there are outputs, or the failure of the function.
    fn apply(&self, args: Vec<Self::Arg>) -> (r: MethodResult<Self::Arg>)
        ensures
            args.len() != self.method_view().inputs.len() ==> r == Err::<Vec<Self::Arg>, MethodFailure>(
                MethodFailure::WrongInputCount(self.method_view().inputs.len() as usize, args.len()),
            ),
            r matches Ok(values) ==> values.len() == self.method_view().outputs.len(),
    ;

    /// The name of the method.
    fn name(&self) -> (r: &str)
        ensures
            r@ == self.method_view().name,
    ;
}

impl<T: 'static> MethodLike for Method<T> {
    type Arg = T;

    open spec fn method_view(&self) -> MethodView {
        self@
    }

    fn new(name: String, inputs: Vec<usize>, outputs: Vec<usize>, apply: MethodFunction<T>) -> (r: Self) {
        Method::new(name, inputs, outputs, apply)
    }

    fn apply(&self, args: Vec<T>) -> (r: MethodResult<T>) {
        Method::apply(self, args)
    }

    fn name(&self) -> (r: &str) {
        Method::name(self)
    }
}

/// A constraint: a name, the methods that can enforce it, and the variables they use.
pub trait ConstraintLike: Sized {
    /// The type of the methods.
    type Method: MethodLike;

    /// What the constraint is.
    spec fn constraint_view(&self) -> ConstraintView;

    /// A constraint without a name, enforced by any of `methods`.
    fn new(methods: Vec<Self::Method>) -> (r: Self)
        ensures
            r.constraint_view().name == Seq::<char>::empty(),
            r.constraint_view().methods == methods@.map_values(|m: Self::Method| m.method_view()),
            lists_used_variables(r.constraint_view().variables, r.constraint_view().methods),
    ;

    /// The name of the constraint.
    fn name(&self) -> (r: &str)
        ensures
            r@ == self.constraint_view().name,
    ;

    /// The methods of the constraint.
    fn methods(&self) -> (r: &[Self::Method])
        ensures
            r@.map_values(|m: Self::Method| m.method_view()) == self.constraint_view().methods,
    ;

    /// Adds a method.
    fn add_method(&mut self, m: Self::Method)
        ensures
            final(self).constraint_view().name == old(self).constraint_view().name,
            final(self).constraint_view().methods == old(self).constraint_view().methods.push(m.method_view()),
            lists_used_variables(final(self).constraint_view().variables, final(self).constraint_view().methods),
    ;

    /// Removes the method named `name`, of which there must be exactly one.
    fn remove_method(&mut self, name: &str)
        requires
            exists|i: int|
                0 <= i < old(self).constraint_view().methods.len() && (#[trigger] old(self).constraint_view().methods[i]).name
                    == name@ && forall|j: int|
                    0 <= j < old(self).constraint_view().methods.len() && j != i ==> (#[trigger] old(
                        self,
                    ).constraint_view().methods[j]).name != name@,
        ensures
            final(self).constraint_view().name == old(self).constraint_view().name,
            final(self).constraint_view().methods == old(self).constraint_view().methods.filter(not_named(name@)),
            lists_used_variables(final(self).constraint_view().variables, final(self).constraint_view().methods),
    ;

    /// The variables that the methods use, each once.
    fn variables(&self) -> (r: &[usize])
        ensures
            r@ == self.constraint_view().variables,
    ;
}

impl<T: 'static> ConstraintLike for Constraint<T> {
    type Method = Method<T>;

    open spec fn constraint_view(&self) -> ConstraintView {
        self@
    }

    fn new(methods: Vec<Method<T>>) -> (r: Self) {
        let ghost ms = methods@;
        let r = Constraint::new(methods);
        assert(ms.map_values(|m: Method<T>| m.method_view()) =~= method_views(ms));
        r
    }

    fn name(&self) -> (r: &str) {
        Constraint::name(self)
    }

    fn methods(&self) -> (r: &[Method<T>]) {
        let r = Constraint::methods(self);
        assert(r@.map_values(|m: Method<T>| m.method_view()) =~= method_views(r@));
        r
    }

    fn add_method(&mut self, m: Method<T>) {
        Constraint::add_method(self, m)
    }

    fn remove_method(&mut self, name: &str) {
        Constraint::remove_method(self, name)
    }

    fn variables(&self) -> (r: &[usize]) {
        Constraint::variables(self)
    }
}

/// A component: variables with values, and constraints between them.
pub trait ComponentLike: Sized {
    /// The type of the values of the variables.
    type Value;
    /// The type of the variables.
    type Variable;
    /// The type of the constraints.
    type Constraint: ConstraintLike;

    /// The component is well formed.
    spec fn valid(&self) -> bool;

    /// The component can be updated: it is well formed, its constraints can be told apart by
    /// their names, and its generation can advance.
    spec fn can_update(&self) -> bool;

    /// The variables.
    spec fn variables_spec(&self) -> Seq<Self::Variable>;

    /// The value of variable `i`.
    spec fn value_spec(&self, i: int) -> Self::Value;

    /// The constraints.
    spec fn constraints_spec(&self) -> Seq<ConstraintView>;

    /// The index of the variable named `name`, if there is one.
    spec fn index_spec(&self, name: Seq<char>) -> Option<usize>;

    /// Some plan enforces each constraint with one of its methods, in an order in which no method
    /// writes a variable of a constraint enforced after it.
    spec fn plannable(&self) -> bool;

    /// A component named `name` with variables of values `values` and the constraints `constraints`.
    fn new(name: String, values: Vec<Self::Value>, constraints: Vec<Self::Constraint>) -> (r: Self)
        ensures
            r.variables_spec().len() == values@.len(),
            forall|i: int| 0 <= i < values@.len() ==> #[trigger] r.value_spec(i) == values@[i],
            r.constraints_spec() == constraints@.map_values(|c: Self::Constraint| c.constraint_view()),
    ;

    /// The number of variables.
    fn n_variables(&self) -> (r: usize)
        ensures
            r == self.variables_spec().len(),
    ;

    /// The variables.
    fn values(&self) -> (r: &[Self::Variable])
        ensures
            r@ == self.variables_spec(),
    ;

    /// Variable `i`.
    fn get(&self, i: usize) -> (r: &Self::Variable)
        requires
            i < self.variables_spec().len(),
        ensures
            *r == self.variables_spec()[i as int],
    ;

    /// Sets the value of variable `i`, leaving the other variables as they were.
    fn set(&mut self, i: usize, value: Self::Value)
        requires
            old(self).valid(),
            i < old(self).variables_spec().len(),
        ensures
            final(self).valid(),
            final(self).variables_spec() == old(self).variables_spec().update(i as int, final(self).variables_spec()[i as int]),
            final(self).value_spec(i as int) == value,
            final(self).constraints_spec() == old(self).constraints_spec(),
    ;

    /// The constraints.
    fn constraints(&self) -> (r: &[Self::Constraint])
        ensures
            r@.map_values(|c: Self::Constraint| c.constraint_view()) == self.constraints_spec(),
    ;

    /// The constraints, to be changed in place.
    fn constraints_mut(&mut self) -> (r: &mut [Self::Constraint])
        ensures
            r@.map_values(|c: Self::Constraint| c.constraint_view()) == old(self).constraints_spec(),
            final(self).constraints_spec() == final(r)@.map_values(|c: Self::Constraint| c.constraint_view()),
            final(self).variables_spec() == old(self).variables_spec(),
    ;

    /// Adds a constraint.
    fn push(&mut self, constraint: Self::Constraint)
        ensures
            final(self).constraints_spec() == old(self).constraints_spec().push(constraint.constraint_view()),
            final(self).variables_spec() == old(self).variables_spec(),
    ;

    /// Removes the last constraint and returns it, if there is one.
    fn pop(&mut self) -> (r: Option<Self::Constraint>)
        ensures
            old(self).constraints_spec().len() == 0 ==> r is None && final(self).constraints_spec() == old(
                self,
            ).constraints_spec(),
            old(self).constraints_spec().len() > 0 ==> (r matches Some(c) && c.constraint_view() == old(
                self,
            ).constraints_spec().last() && final(self).constraints_spec() == old(self).constraints_spec().drop_last()),
            final(self).variables_spec() == old(self).variables_spec(),
    ;

    /// The variables, highest ranked first.
    fn ranking(&self) -> (r: Vec<usize>)
        requires
            self.valid(),
        ensures
            r@.len() == self.variables_spec().len(),
    ;

    /// Plans and runs the methods that enforce the constraints. On failure the component is
    /// left as it was.
    fn update(&mut self) -> (r: Result<(), PlanError>)
        requires
            old(self).can_update(),
        ensures
            final(self).valid(),
            final(self).constraints_spec() == old(self).constraints_spec(),
            r is Err ==> *final(self) == *old(self),
            old(self).plannable() ==> r is Ok,
    ;

    /// The index of the variable named `name`, if there is one.
    fn name_to_idx(&self, name: &str) -> (r: Option<usize>)
        requires
            self.valid(),
        ensures
            r == self.index_spec(name@),
            r matches Some(i) ==> i < self.variables_spec().len(),
    ;

    /// Removes constraint `idx` and returns it.
    fn remove_constraint(&mut self, idx: usize) -> (r: Self::Constraint)
        requires
            idx < old(self).constraints_spec().len(),
        ensures
            r.constraint_view() == old(self).constraints_spec()[idx as int],
            final(self).constraints_spec() == old(self).constraints_spec().remove(idx as int),
            final(self).variables_spec() == old(self).variables_spec(),
    ;
}

impl<T: Clone + 'static> ComponentLike for Component<T> {
    type Value = T;
    type Variable = VariableActivation<T, SolveError>;
    type Constraint = Constraint<T>;

    open spec fn valid(&self) -> bool {
        self.wf()
    }

    open spec fn can_update(&self) -> bool {
        &&& self.wf()
        &&& self.generation_spec() < usize::MAX
    }

    open spec fn variables_spec(&self) -> Seq<VariableActivation<T, SolveError>> {
        self.values()
    }

    open spec fn value_spec(&self, i: int) -> T {
        self.values()[i].shared_state.value_spec()
    }

    open spec fn constraints_spec(&self) -> Seq<ConstraintView> {
        self.constraints_view()
    }

    open spec fn index_spec(&self, name: Seq<char>) -> Option<usize> {
        self.index_of(name)
    }

    open spec fn plannable(&self) -> bool {
        exists|p: Seq<(usize, usize)>| #[trigger] is_elimination_plan(self.constraints_view(), p)
    }

    fn new(name: String, values: Vec<T>, constraints: Vec<Constraint<T>>) -> (r: Self) {
        let ghost cs = constraints@;
        let r = Component::new(name, values, constraints);
        proof {
            r.lemma_values_len();
            assert(cs.map_values(|c: Constraint<T>| c.constraint_view()) =~= constraint_views(cs));
        }
        r
    }

    fn n_variables(&self) -> (r: usize) {
        proof {
            self.lemma_values_len();
        }
        Component::n_variables(self)
    }

    fn values(&self) -> (r: &[VariableActivation<T, SolveError>]) {
        Component::variables(self)
    }

    fn get(&self, i: usize) -> (r: &VariableActivation<T, SolveError>) {
        proof {
            self.lemma_values_len();
        }
        Component::get(self, i)
    }

    fn set(&mut self, i: usize, value: T) {
        proof {
            old(self).lemma_values_len();
        }
        Component::set(self, i, value)
    }

    fn constraints(&self) -> (r: &[Constraint<T>]) {
        let r = Component::constraints(self);
        assert(r@.map_values(|c: Constraint<T>| c.constraint_view()) =~= constraint_views(r@));
        r
    }

    fn constraints_mut(&mut self) -> (r: &mut [Constraint<T>]) {
        let r = Component::constraints_mut(self);
        proof {
            assert(r@.map_values(|c: Constraint<T>| c.constraint_view()) =~= constraint_views(r@));
            assert(final(r)@.map_values(|c: Constraint<T>| c.constraint_view()) =~= constraint_views(final(r)@));
        }
        r
    }

    fn push(&mut self, constraint: Constraint<T>) {
        Component::push(self, constraint);
        proof {
            Component::lemma_same_except_constraints(*self, *old(self));
        }
    }

    fn pop(&mut self) -> (r: Option<Constraint<T>>) {
        let r = Component::pop(self);
        proof {
            Component::lemma_same_except_constraints(*self, *old(self));
        }
        r
    }

    fn ranking(&self) -> (r: Vec<usize>) {
        proof {
            self.lemma_values_len();
        }
        Component::ranking(self)
    }

    fn update(&mut self) -> (r: Result<(), PlanError>)
        ensures
            r is Err ==> forall|p: Seq<(usize, usize)>| !#[trigger] is_elimination_plan(old(self).constraints_view(), p),
            r is Ok ==> final(self).generation_spec() == old(self).generation_spec() + 1 && final(self).updated().len() == 0,
            old(self).keeps_ranked(&*final(self)),
    {
        let r = Component::update(self);
        proof {
            if old(self).plannable() {
                let p = choose|p: Seq<(usize, usize)>| #[trigger] is_elimination_plan(old(self).constraints_view(), p);
                assert(leaves_prefix(old(self).constraints_view(), p, old(self).ranking_view(), 0));
                assert(prefix_keepable(old(self).constraints_view(), old(self).ranking_view(), 0));
            }
        }
        r
    }

    fn name_to_idx(&self, name: &str) -> (r: Option<usize>) {
        let r = Component::name_to_idx(self, name);
        proof {
            self.lemma_values_len();
            if r is Some {
                let j = choose|j: int| 0 <= j < self.names().len() && (#[trigger] self.names()[j]).0 == name@;
                assert(self.names()[j].1 < self.n_vars());
            }
        }
        r
    }

    fn remove_constraint(&mut self, idx: usize) -> (r: Constraint<T>) {
        let r = Component::remove_constraint(self, idx);
        proof {
            Component::lemma_same_except_constraints(*self, *old(self));
        }
        r
    }
}

} // verus!
