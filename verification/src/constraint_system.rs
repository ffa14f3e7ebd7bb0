//! A [`ConstraintSystem`]: a collection of components, each found by its name.

use crate::activation::State;
use crate::component::Component;
use crate::error::{PlanError, SolveError};
use crate::name_map::{lookup, NameMap};
use crate::simple_planner::is_elimination_plan;
use crate::variable_information::EventCallback;
use vstd::prelude::*;

verus! {

/// A collection of components.
#[verifier::reject_recursive_types(T)]
#[derive(Clone, Debug, PartialEq)]
pub struct ConstraintSystem<T: 'static> {
    component_map: NameMap,
    components: Vec<Component<T>>,
}

impl<T: 'static> ConstraintSystem<T> {
    /// The components, in the order they were added.
    pub closed spec fn components_view(&self) -> Seq<Component<T>> {
        self.components@
    }

    /// The names of the components, and their positions.
    pub closed spec fn names(&self) -> Seq<(Seq<char>, usize)> {
        self.component_map@
    }

    /// The position of the component named `name`, if there is one.
    pub open spec fn index_of(&self, name: Seq<char>) -> Option<usize> {
        lookup(self.names(), name)
    }

    /// The component named `name`; meaningful when there is one.
    pub open spec fn component_spec(&self, name: Seq<char>) -> Component<T> {
        self.components_view()[self.index_of(name)->0 as int]
    }

    /// Each name maps to a component, and each component can be updated.
    pub open spec fn wf(&self) -> bool {
        &&& crate::name_map::unique_names(self.names())
        &&& forall|i: int| 0 <= i < self.names().len() ==> (#[trigger] self.names()[i]).1 < self.components_view().len()
        &&& forall|i: int| 0 <= i < self.components_view().len() ==> (#[trigger] self.components_view()[i]).wf()
    }

    /// Every component can advance to a next generation.
    pub open spec fn can_advance(&self) -> bool {
        forall|i: int| 0 <= i < self.components_view().len() ==> (#[trigger] self.components_view()[i]).generation_spec()
            < usize::MAX
    }

    /// A system without components.
    pub fn new() -> (r: Self)
        ensures
            r.components_view() == Seq::<Component<T>>::empty(),
            r.names() == Seq::<(Seq<char>, usize)>::empty(),
            r.wf(),
    {
        ConstraintSystem { component_map: NameMap::new(), components: Vec::new() }
    }

    /// Adds a component, found from now on by its name.
    pub fn add_component(&mut self, component: Component<T>)
        requires
            old(self).wf(),
            component.wf(),
        ensures
            final(self).wf(),
            final(self).components_view() == old(self).components_view().push(component),
            forall|n: Seq<char>| #[trigger]
                final(self).index_of(n) == if n == component.name_view() {
                    Some(old(self).components_view().len() as usize)
                } else {
                    old(self).index_of(n)
                },
    {
        let index = self.components.len();
        let name = component.name().to_owned();
        assert(name@ == component.name_view());
        self.component_map.insert(name, index);
        self.components.push(component);
        proof {
            assert forall|n: Seq<char>| #[trigger]
                self.index_of(n) == if n == component.name_view() {
                    Some(old(self).components_view().len() as usize)
                } else {
                    old(self).index_of(n)
                } by {
                assert(self.component_map.get_spec(n) == lookup(self.names(), n));
                assert(old(self).component_map.get_spec(n) == lookup(old(self).names(), n));
            }
            assert forall|i: int| 0 <= i < self.names().len() implies (#[trigger] self.names()[i]).1 < self.components_view().len() by {
                let e = self.names()[i];
                if e.1 != index {
                    assert(lookup(self.names(), e.0) == Some(e.1)) by {
                        let j = choose|j: int| 0 <= j < self.names().len() && (#[trigger] self.names()[j]).0 == e.0;
                        assert(j == i);
                    }
                    assert(self.component_map.get_spec(e.0) == Some(e.1));
                    assert(old(self).component_map.get_spec(e.0) == Some(e.1));
                    let j = choose|j: int| 0 <= j < old(self).names().len() && (#[trigger] old(self).names()[j]).0 == e.0;
                    assert(old(self).names()[j].1 < old(self).components_view().len());
                }
            }
        }
    }

    /// Returns the component named `name`.
    pub fn get_component(&self, name: &str) -> (r: &Component<T>)
        requires
            self.wf(),
            self.index_of(name@) is Some,
        ensures
            *r == self.component_spec(name@),
    {
        let index = self.position(name);
        &self.components[index]
    }

    /// The position of the component named `name`.
    fn position(&self, name: &str) -> (r: usize)
        requires
            self.wf(),
            self.index_of(name@) is Some,
        ensures
            Some(r) == self.index_of(name@),
            r < self.components_view().len(),
    {
        match self.component_map.get(name) {
            Some(index) => {
                proof {
                    let j = choose|j: int| 0 <= j < self.names().len() && (#[trigger] self.names()[j]).0 == name@;
                    assert(self.names()[j].1 == index);
                }
                index
            },
            None => 0,
        }
    }

    /// Sets the value of the variable named `variable` in the component named `component`.
    pub fn set_variable(&mut self, component: &str, variable: &str, value: T)
        requires
            old(self).wf(),
            old(self).index_of(component@) is Some,
            old(self).component_spec(component@).index_of(variable@) is Some,
        ensures
            final(self).wf(),
            final(self).names() == old(self).names(),
            final(self).components_view().len() == old(self).components_view().len(),
            forall|i: int|
                0 <= i < old(self).components_view().len() && Some(i as usize) != old(self).index_of(component@)
                    ==> #[trigger] final(self).components_view()[i] == old(self).components_view()[i],
            old(self).component_spec(component@).variable_set(
                &final(self).component_spec(component@),
                old(self).component_spec(component@).index_of(variable@)->0,
                value,
            ),
            final(self).component_spec(component@).names() == old(self).component_spec(component@).names(),
            final(self).component_spec(component@).constraints_view() == old(self).component_spec(component@).constraints_view(),
    {
        let index = self.position(component);
        let r = self.components[index].set_variable(variable, value);
        proof {
            assert(self.components_view()[index as int].wf());
        }
    }

    /// Returns the latest value of the variable named `variable` in the component named `component`,
    /// or `None` if the component has no such variable.
    pub fn get_variable(&self, component: &str, variable: &str) -> (r: Option<T>) where T: Clone
        requires
            self.wf(),
            self.index_of(component@) is Some,
        ensures
            match self.component_spec(component@).value_of(variable@) {
                Some(value) => (r matches Some(v) && vstd::pervasive::cloned(value, v)),
                None => r is None,
            },
    {
        let index = self.position(component);
        self.components[index].get_variable(variable)
    }

    /// What updating the components from `before` to `after` did, stopping at the first failure:
    /// each component keeps its name, variable names and constraints, and the values of its
    /// variables ranked first as far as some elimination plan leaves them unwritten; on success
    /// every component has run a plan that enforces its constraints ([`Component::solved_into`]),
    /// advanced its generation, and no variable is marked as set; on failure
    /// some component, whose constraints have no elimination plan, and every component after it,
    /// are as they were, while those before it were updated.
    pub open spec fn updated_components(before: Seq<Component<T>>, after: Seq<Component<T>>, r: Result<(), PlanError>) -> bool where T: Clone {
        &&& after.len() == before.len()
        &&& forall|j: int|
            0 <= j < before.len() ==> (#[trigger] after[j]).constraints_view() == before[j].constraints_view()
                && after[j].names() == before[j].names() && after[j].name_view() == before[j].name_view()
        &&& forall|j: int| 0 <= j < before.len() ==> #[trigger] before[j].keeps_ranked(&after[j])
        &&& r is Ok ==> forall|j: int|
            0 <= j < before.len() ==> (#[trigger] after[j]).generation_spec() == before[j].generation_spec() + 1
                && after[j].updated().len() == 0 && before[j].solved_into(&after[j])
        &&& r is Err ==> exists|k: int|
            0 <= k < before.len() && #[trigger] after[k] == before[k] && (forall|p: Seq<(usize, usize)>|
                !#[trigger] is_elimination_plan(before[k].constraints_view(), p)) && (forall|j: int|
                k < j < before.len() ==> #[trigger] after[j] == before[j]) && (forall|j: int|
                0 <= j < k ==> (#[trigger] after[j]).generation_spec() == before[j].generation_spec() + 1
                    && before[j].solved_into(&after[j]))
    }

    /// Solves each component, in the order they were added, and advances its generation; stops at
    /// the first that fails.
    pub fn update(&mut self) -> (r: Result<(), PlanError>) where T: Clone
        requires
            old(self).wf(),
            old(self).can_advance(),
        ensures
            final(self).wf(),
            final(self).names() == old(self).names(),
            Self::updated_components(old(self).components_view(), final(self).components_view(), r),
    {
        self.update_components()
    }

    /// Each component of `before` that had a variable set since it was last solved went to
    /// `after` as [`ConstraintSystem::updated_components`] says of every component, while the
    /// others stay as they were: on success every modified component ran a plan that enforces its
    /// constraints and advanced its generation; on failure some modified component, whose
    /// constraints have no elimination plan, and every component after it, are as they were.
    pub open spec fn updated_modified(before: Seq<Component<T>>, after: Seq<Component<T>>, r: Result<(), PlanError>) -> bool where T: Clone {
        &&& after.len() == before.len()
        &&& forall|j: int|
            0 <= j < before.len() ==> (#[trigger] after[j]).constraints_view() == before[j].constraints_view()
                && after[j].names() == before[j].names() && after[j].name_view() == before[j].name_view()
        &&& forall|j: int| 0 <= j < before.len() ==> #[trigger] before[j].keeps_ranked(&after[j])
        &&& forall|j: int| 0 <= j < before.len() && before[j].updated().len() == 0 ==> #[trigger] after[j] == before[j]
        &&& r is Ok ==> forall|j: int|
            0 <= j < before.len() && before[j].updated().len() > 0 ==> (#[trigger] after[j]).generation_spec()
                == before[j].generation_spec() + 1 && after[j].updated().len() == 0 && before[j].solved_into(&after[j])
        &&& r is Err ==> exists|k: int|
            0 <= k < before.len() && before[k].updated().len() > 0 && #[trigger] after[k] == before[k] && (forall|
                p: Seq<(usize, usize)>,
            | !#[trigger] is_elimination_plan(before[k].constraints_view(), p)) && (forall|j: int|
                k < j < before.len() ==> #[trigger] after[j] == before[j]) && (forall|j: int|
                0 <= j < k && before[j].updated().len() > 0 ==> (#[trigger] after[j]).generation_spec()
                    == before[j].generation_spec() + 1 && before[j].solved_into(&after[j]))
    }

    /// Solves each component that had a variable set since it was last solved, in the order they
    /// were added, and advances its generation; stops at the first that fails.
    pub fn par_update(&mut self) -> (r: Result<(), PlanError>) where T: Clone
        requires
            old(self).wf(),
            old(self).can_advance(),
        ensures
            final(self).wf(),
            final(self).names() == old(self).names(),
            Self::updated_modified(old(self).components_view(), final(self).components_view(), r),
    {
        let ghost before = old(self).components_view();
        let n = self.components.len();
        let mut i: usize = 0;
        while i < n
            invariant
                n == self.components@.len(),
                n == old(self).components@.len(),
                before == old(self).components_view(),
                i <= n,
                self.wf(),
                self.names() == old(self).names(),
                forall|j: int| i <= j < n ==> (#[trigger] self.components@[j]).generation_spec() < usize::MAX,
                forall|j: int| 0 <= j < i && before[j].updated().len() > 0 ==> (#[trigger] self.components@[j]).updated().len() == 0
                    && self.components@[j].generation_spec() == before[j].generation_spec() + 1
                    && before[j].solved_into(&self.components@[j]),
                forall|j: int| 0 <= j < n && before[j].updated().len() == 0 ==> #[trigger] self.components@[j] == before[j],
                forall|j: int| 0 <= j < n ==> (#[trigger] self.components@[j]).constraints_view() == before[j].constraints_view()
                    && self.components@[j].names() == before[j].names() && self.components@[j].name_view() == before[j].name_view(),
                forall|j: int| i <= j < n ==> #[trigger] self.components@[j] == before[j],
                forall|j: int| 0 <= j < n ==> #[trigger] before[j].keeps_ranked(&self.components@[j]),
            decreases n - i,
        {
            if self.components[i].is_modified() {
                proof {
                    assert(self.components_view()[i as int].wf());
                }
                let ghost prior = self.components@;
                let r = self.components[i].par_update();
                proof {
                    assert forall|j: int| 0 <= j < self.components_view().len() implies (#[trigger] self.components_view()[j]).wf() by {
                        if j != i {
                            assert(self.components@[j] == prior[j]);
                        }
                    }
                    assert forall|j: int| 0 <= j < n && j != i implies #[trigger] self.components@[j] == prior[j] by {}
                }
                match r {
                    Ok(()) => {},
                    Err(e) => {
                        proof {
                            assert(self.components@[i as int] == prior[i as int]);
                            assert(self.components_view()[i as int] == before[i as int]);
                        }
                        return Err(e);
                    },
                }
            } else {
                proof {
                    assert(before[i as int].keeps_ranked(&self.components@[i as int]));
                }
            }
            i += 1;
        }
        Ok(())
    }

    /// Same as [`ConstraintSystem::update`]: solves every component, in the order they were added;
    /// stops at the first that fails.
    pub fn par_update_always(&mut self) -> (r: Result<(), PlanError>) where T: Clone
        requires
            old(self).wf(),
            old(self).can_advance(),
        ensures
            final(self).wf(),
            final(self).names() == old(self).names(),
            Self::updated_components(old(self).components_view(), final(self).components_view(), r),
    {
        self.update_components()
    }

    /// Updates every component in turn.
    fn update_components(&mut self) -> (r: Result<(), PlanError>) where T: Clone
        requires
            old(self).wf(),
            old(self).can_advance(),
        ensures
            final(self).wf(),
            final(self).names() == old(self).names(),
            Self::updated_components(old(self).components_view(), final(self).components_view(), r),
    {
        let ghost before = old(self).components_view();
        let n = self.components.len();
        let mut i: usize = 0;
        while i < n
            invariant
                n == self.components@.len(),
                n == old(self).components@.len(),
                before == old(self).components_view(),
                i <= n,
                self.wf(),
                self.names() == old(self).names(),
                forall|j: int| i <= j < n ==> (#[trigger] self.components@[j]).generation_spec() < usize::MAX,
                forall|j: int| 0 <= j < i ==> (#[trigger] self.components@[j]).updated().len() == 0
                    && self.components@[j].generation_spec() == before[j].generation_spec() + 1
                    && before[j].solved_into(&self.components@[j]),
                forall|j: int| 0 <= j < n ==> (#[trigger] self.components@[j]).constraints_view() == before[j].constraints_view()
                    && self.components@[j].names() == before[j].names() && self.components@[j].name_view() == before[j].name_view(),
                forall|j: int| i <= j < n ==> #[trigger] self.components@[j] == before[j],
                forall|j: int| 0 <= j < n ==> #[trigger] before[j].keeps_ranked(&self.components@[j]),
            decreases n - i,
        {
            proof {
                assert(self.components_view()[i as int].wf());
            }
            let ghost prior = self.components@;
            let r = self.components[i].par_update();
            proof {
                assert forall|j: int| 0 <= j < self.components_view().len() implies (#[trigger] self.components_view()[j]).wf() by {
                    if j != i {
                        assert(self.components@[j] == prior[j]);
                    }
                }
                assert forall|j: int| 0 <= j < n && j != i implies #[trigger] self.components@[j] == prior[j] by {}
            }
            match r {
                Ok(()) => {},
                Err(e) => {
                    proof {
                        assert(self.components@[i as int] == prior[i as int]);
                        assert(self.components_view()[i as int] == before[i as int]);
                    }
                    return Err(e);
                },
            }
            i += 1;
        }
        Ok(())
    }

    /// Subscribes a listener to the variable named `variable` in the component named `component`.
    pub fn subscribe(&mut self, component: &str, variable: &str, callback: EventCallback<T, SolveError>)
        requires
            old(self).wf(),
            old(self).index_of(component@) is Some,
            old(self).component_spec(component@).index_of(variable@) is Some,
        ensures
            final(self).wf(),
            final(self).names() == old(self).names(),
            final(self).components_view().len() == old(self).components_view().len(),
            ({
                let i = old(self).component_spec(component@).index_of(variable@)->0;
                final(self).component_spec(component@).infos()[i as int].subscribed()
            }),
    {
        let index = self.position(component);
        let r = self.components[index].subscribe(variable, callback);
    }

    /// Removes the listener of the variable named `variable` in the component named `component`.
    pub fn unsubscribe(&mut self, component: &str, variable: &str)
        requires
            old(self).wf(),
            old(self).index_of(component@) is Some,
            old(self).component_spec(component@).index_of(variable@) is Some,
        ensures
            final(self).wf(),
            final(self).names() == old(self).names(),
            final(self).components_view().len() == old(self).components_view().len(),
            ({
                let i = old(self).component_spec(component@).index_of(variable@)->0;
                !final(self).component_spec(component@).infos()[i as int].subscribed()
            }),
    {
        let index = self.position(component);
        let r = self.components[index].unsubscribe(variable);
    }

    /// Pins the variable named `variable` in the component named `component`: that component gets
    /// a constraint that holds the variable ([`Component::pinned`]), and nothing else changes.
    pub fn pin(&mut self, component: &str, variable: &str)
        requires
            old(self).wf(),
            old(self).index_of(component@) is Some,
            old(self).component_spec(component@).index_of(variable@) is Some,
        ensures
            final(self).wf(),
            final(self).names() == old(self).names(),
            final(self).components_view().len() == old(self).components_view().len(),
            final(self).component_spec(component@).constraints_view().len() == old(self).component_spec(
                component@,
            ).constraints_view().len() + 1,
            final(self).index_of(component@) == old(self).index_of(component@),
            old(self).component_spec(component@).pinned(
                &final(self).component_spec(component@),
                old(self).component_spec(component@).index_of(variable@)->0,
            ),
            forall|i: int|
                0 <= i < old(self).components_view().len() && Some(i as usize) != old(self).index_of(component@)
                    ==> #[trigger] final(self).components_view()[i] == old(self).components_view()[i],
    {
        let index = self.position(component);
        proof {
            assert(self.components_view()[index as int].wf());
        }
        self.components[index].pin(variable);
    }

    /// Unpins the variable named `variable` in the component named `component`: that component
    /// loses the constraints that pin the variable, and nothing else changes.
    pub fn unpin(&mut self, component: &str, variable: &str)
        requires
            old(self).wf(),
            old(self).index_of(component@) is Some,
            old(self).component_spec(component@).index_of(variable@) is Some,
        ensures
            final(self).wf(),
            final(self).names() == old(self).names(),
            final(self).components_view().len() == old(self).components_view().len(),
            forall|i: int|
                0 <= i < old(self).components_view().len() && Some(i as usize) != old(self).index_of(component@)
                    ==> #[trigger] final(self).components_view()[i] == old(self).components_view()[i],
            final(self).component_spec(component@).same_except_constraints(&old(self).component_spec(component@)),
            final(self).component_spec(component@).constraints_view() == old(self).component_spec(
                component@,
            ).constraints_view().filter(
                crate::component::not_pinning(old(self).component_spec(component@).index_of(variable@)->0),
            ),
    {
        let index = self.position(component);
        proof {
            assert(self.components_view()[index as int].wf());
        }
        self.components[index].unpin(variable);
    }
}

} // verus!
