//! Types for a [`Constraint`], a relation between variables in a component that should hold.
//!
//! A [`Constraint`] contains a number of [`Method`]s that read from and write to different variables,
//! and can be executed in order to enforce the constraint.

use crate::method::{Method, MethodView};
use crate::vertex::Vertex;
use vstd::prelude::*;

verus! {

broadcast use vstd::seq_lib::group_seq_properties;

/// An assertion for a constraint.
/// This may be run after each method call to ensure that the
/// constraint holds, and may also work as documentation.
pub trait Assertion<T>: Send + Sync + std::fmt::Debug {
    /// Returns true if the constraint holds between `values`.
    fn holds(&self, values: &[T]) -> bool;
}

/// A type for an assertion statement for the constraint.
pub type Assert<T> = &'static dyn Assertion<T>;

/// Method `m` does not write `var`.
pub open spec fn not_writing(var: usize) -> spec_fn(MethodView) -> bool {
    |m: MethodView| !m.outputs.contains(var)
}

/// Keeping what a filter kept keeps it all.
pub proof fn lemma_filter_idempotent(ms: Seq<MethodView>, keep: spec_fn(MethodView) -> bool)
    ensures
        ms.filter(keep).filter(keep) == ms.filter(keep),
    decreases ms.len(),
{
    reveal_with_fuel(Seq::filter, 1);
    if ms.len() > 0 {
        lemma_filter_idempotent(ms.drop_last(), keep);
        let f = ms.drop_last().filter(keep);
        if keep(ms.last()) {
            assert(ms.filter(keep) == f.push(ms.last()));
            assert(f.push(ms.last()).drop_last() =~= f);
            assert(f.push(ms.last()).filter(keep) == f.filter(keep).push(ms.last()));
        } else {
            assert(ms.filter(keep) == f);
        }
    }
}

/// `x` is read or written by one of the methods `ms`.
pub open spec fn used_by(ms: Seq<MethodView>, x: usize) -> bool {
    exists|i: int|
        #![trigger ms[i].inputs.contains(x)]
        #![trigger ms[i].outputs.contains(x)]
        0 <= i < ms.len() && (ms[i].inputs.contains(x) || ms[i].outputs.contains(x))
}

/// What a constraint is: its name, the variables it references, and its methods.
pub struct ConstraintView {
    /// The name of the constraint.
    pub name: Seq<char>,
    /// The variables referenced by some method of the constraint, each once.
    pub variables: Seq<usize>,
    /// The methods that can enforce the constraint.
    pub methods: Seq<MethodView>,
}

/// The views of a sequence of methods.
pub open spec fn method_views<T: 'static>(ms: Seq<Method<T>>) -> Seq<MethodView> {
    ms.map_values(|m: Method<T>| m@)
}

/// `variables` lists each variable used by a method of `methods` exactly once.
pub open spec fn lists_used_variables(variables: Seq<usize>, methods: Seq<MethodView>) -> bool {
    &&& variables.no_duplicates()
    &&& forall|x: usize| #[trigger] variables.contains(x) <==> used_by(methods, x)
}

/// Holds of the methods not named `name`.
pub open spec fn not_named(name: Seq<char>) -> spec_fn(MethodView) -> bool {
    |m: MethodView| m.name != name
}

/// Represents a constraint in a multiway dataflow constraint system.
/// It has a name, a set of variables it references, a set of [`Method`]s to enforce it,
/// and an optional assertion to run to ensure that it is actually enforced upon running a method.
#[verifier::reject_recursive_types(T)]
#[derive(Clone, Debug)]
pub struct Constraint<T: 'static> {
    name: String,
    variables: Vec<usize>,
    methods: Vec<Method<T>>,
    assert: Option<Assert<T>>,
}

impl<T: 'static> View for Constraint<T> {
    type V = ConstraintView;

    closed spec fn view(&self) -> ConstraintView {
        ConstraintView { name: self.name@, variables: self.variables@, methods: method_views(self.methods@) }
    }
}

impl<T: 'static> Constraint<T> {
    /// A constraint holds at most `usize::MAX` methods.
    pub proof fn lemma_methods_fit(&self)
        ensures
            self@.methods.len() <= usize::MAX,
    {
        assert(self.methods.len() == self.methods@.len());
    }

    /// The constraint's list of variables is the set of variables its methods use.
    pub open spec fn wf(&self) -> bool {
        lists_used_variables(self@.variables, self@.methods)
    }

    /// Adds to `variables` every variable read or written by `methods`, unless it is there already.
    fn fill_variables(variables: &mut Vec<usize>, methods: &[Method<T>])
        requires
            old(variables)@.no_duplicates(),
        ensures
            final(variables)@.no_duplicates(),
            forall|x: usize| #[trigger]
                final(variables)@.contains(x) <==> (old(variables)@.contains(x) || used_by(
                    method_views(methods@),
                    x,
                )),
    {
        let ghost ms = method_views(methods@);
        let mut i: usize = 0;
        while i < methods.len()
            invariant
                ms == method_views(methods@),
                i <= methods@.len(),
                variables@.no_duplicates(),
                forall|x: usize| #[trigger]
                    variables@.contains(x) <==> (old(variables)@.contains(x) || used_by(
                        ms.subrange(0, i as int),
                        x,
                    )),
            decreases methods@.len() - i,
        {
            let m = &methods[i];
            Self::insert_all(variables, m.inputs());
            Self::insert_all(variables, m.outputs());
            proof {
                assert forall|x: usize| #[trigger]
                    variables@.contains(x) <==> (old(variables)@.contains(x) || used_by(
                        ms.subrange(0, i + 1),
                        x,
                    )) by {
                    let prev = ms.subrange(0, i as int);
                    let next = ms.subrange(0, i + 1);
                    assert(next[i as int] == m@);
                    if used_by(prev, x) {
                        let j = choose|j: int|
                            0 <= j < prev.len() && (#[trigger] prev[j].inputs.contains(x)
                                || prev[j].outputs.contains(x));
                        assert(next[j] == prev[j]);
                    }
                    if used_by(next, x) {
                        let j = choose|j: int|
                            0 <= j < next.len() && (#[trigger] next[j].inputs.contains(x)
                                || next[j].outputs.contains(x));
                        if j < i {
                            assert(prev[j] == next[j]);
                        }
                    }
                }
            }
            i += 1;
        }
        assert(ms.subrange(0, methods@.len() as int) =~= ms);
    }

    /// Adds each of `indices` to `variables`, unless it is there already.
    fn insert_all(variables: &mut Vec<usize>, indices: &[usize])
        requires
            old(variables)@.no_duplicates(),
        ensures
            final(variables)@.no_duplicates(),
            forall|x: usize| #[trigger]
                final(variables)@.contains(x) <==> (old(variables)@.contains(x) || indices@.contains(x)),
    {
        let mut k: usize = 0;
        while k < indices.len()
            invariant
                k <= indices@.len(),
                variables@.no_duplicates(),
                forall|x: usize| #[trigger]
                    variables@.contains(x) <==> (old(variables)@.contains(x) || indices@.subrange(
                        0,
                        k as int,
                    ).contains(x)),
            decreases indices@.len() - k,
        {
            let x = indices[k];
            if !contains_index(variables.as_slice(), x) {
                variables.push(x);
            }
            assert(indices@.subrange(0, k + 1) =~= indices@.subrange(0, k as int).push(x));
            k += 1;
        }
        assert(indices@.subrange(0, indices@.len() as int) =~= indices@);
    }

    /// The variables used by `methods`, each once, in the order they first appear.
    fn used_variables(methods: &[Method<T>]) -> (r: Vec<usize>)
        ensures
            lists_used_variables(r@, method_views(methods@)),
    {
        let mut variables = Vec::new();
        Self::fill_variables(&mut variables, methods);
        variables
    }

    /// Constructs a new constraint with the specified name.
    pub fn new_with_name(name: String, methods: Vec<Method<T>>) -> (r: Self)
        ensures
            r@.name == name@,
            r@.methods == method_views(methods@),
            r.wf(),
    {
        Self::new_with_name_and_assert(name, methods, None)
    }

    /// Constructs a new constraint with the specified name and assertion.
    pub fn new_with_name_and_assert(name: String, methods: Vec<Method<T>>, assert: Option<Assert<T>>) -> (r:
        Self)
        ensures
            r@.name == name@,
            r@.methods == method_views(methods@),
            r.wf(),
    {
        let variables = Self::used_variables(methods.as_slice());
        Self { name, variables, methods, assert }
    }

    /// Constructs a new constraint with an empty name.
    pub fn new(methods: Vec<Method<T>>) -> (r: Self)
        ensures
            r@.name == Seq::<char>::empty(),
            r@.methods == method_views(methods@),
            r.wf(),
    {
        Self::new_with_name(String::new(), methods)
    }

    /// Returns the name of the constraint.
    pub fn name(&self) -> (r: &str)
        ensures
            r@ == self@.name,
    {
        self.name.as_str()
    }

    /// Returns the methods of the constraint.
    pub fn methods(&self) -> (r: &[Method<T>])
        ensures
            method_views(r@) == self@.methods,
    {
        self.methods.as_slice()
    }

    /// Returns the variables referenced by the methods of the constraint.
    pub fn variables(&self) -> (r: &[usize])
        ensures
            r@ == self@.variables,
    {
        self.variables.as_slice()
    }

    /// Adds a method to the constraint.
    pub fn add_method(&mut self, m: Method<T>)
        ensures
            final(self)@.name == old(self)@.name,
            final(self)@.methods == old(self)@.methods.push(m@),
            final(self).wf(),
    {
        let ghost mv = m@;
        self.methods.push(m);
        assert(method_views(self.methods@) =~= method_views(old(self).methods@).push(mv));
        self.variables = Self::used_variables(self.methods.as_slice());
    }

    /// Removes the method named `name` from the constraint.
    /// There must be exactly one such method.
    pub fn remove_method(&mut self, name: &str)
        requires
            exists|i: int|
                0 <= i < old(self)@.methods.len() && (#[trigger] old(self)@.methods[i]).name == name@ && forall|
                    j: int,
                | 0 <= j < old(self)@.methods.len() && j != i ==> (#[trigger] old(self)@.methods[j]).name
                    != name@,
        ensures
            final(self)@.name == old(self)@.name,
            final(self)@.methods == old(self)@.methods.filter(not_named(name@)),
            final(self).wf(),
    {
        let ghost old_methods = self@.methods;
        let ghost keep = not_named(name@);
        let mut kept: Vec<Method<T>> = Vec::new();
        let mut i: usize = 0;
        while i < self.methods.len()
            invariant
                i <= self.methods@.len(),
                old_methods == method_views(self.methods@),
                keep == not_named(name@),
                method_views(kept@) == old_methods.subrange(0, i as int).filter(keep),
            decreases self.methods@.len() - i,
        {
            let m = self.methods[i].duplicate();
            proof {
                reveal_with_fuel(Seq::filter, 1);
                assert(old_methods.subrange(0, i + 1).drop_last() =~= old_methods.subrange(0, i as int));
            }
            if !str_equal(m.name(), name) {
                let ghost mv = m@;
                kept.push(m);
                assert(method_views(kept@) =~= method_views(kept@).drop_last().push(mv));
            }
            i += 1;
        }
        assert(old_methods.subrange(0, old_methods.len() as int) =~= old_methods);
        self.methods = kept;
        self.variables = Self::used_variables(self.methods.as_slice());
    }

    /// Returns a copy of this constraint, sharing the functions of its methods and its assertion.
    pub fn duplicate(&self) -> (r: Self)
        ensures
            r@ == self@,
    {
        let mut methods: Vec<Method<T>> = Vec::new();
        let mut i: usize = 0;
        while i < self.methods.len()
            invariant
                i <= self.methods@.len(),
                methods@.len() == i,
                forall|j: int| 0 <= j < i ==> (#[trigger] methods@[j])@ == self.methods@[j]@,
            decreases self.methods@.len() - i,
        {
            methods.push(self.methods[i].duplicate());
            i += 1;
        }
        assert(method_views(methods@) =~= method_views(self.methods@));
        Constraint {
            name: self.name.clone(),
            variables: self.variables.clone(),
            methods,
            assert: self.assert,
        }
    }

    /// Removes every method that writes variable `var`.
    pub fn remove_methods_writing(&mut self, var: usize)
        requires
            old(self).wf(),
        ensures
            final(self)@.name == old(self)@.name,
            final(self)@.methods == old(self)@.methods.filter(not_writing(var)),
            final(self).wf(),
    {
        let ghost old_methods = self@.methods;
        let ghost keep = not_writing(var);
        let mut kept: Vec<Method<T>> = Vec::new();
        let mut i: usize = 0;
        while i < self.methods.len()
            invariant
                i <= self.methods@.len(),
                old_methods == method_views(self.methods@),
                keep == not_writing(var),
                method_views(kept@) == old_methods.subrange(0, i as int).filter(keep),
            decreases self.methods@.len() - i,
        {
            let m = self.methods[i].duplicate();
            proof {
                reveal_with_fuel(Seq::filter, 1);
                assert(old_methods.subrange(0, i + 1).drop_last() =~= old_methods.subrange(0, i as int));
            }
            if !contains_index(m.outputs(), var) {
                let ghost mv = m@;
                kept.push(m);
                assert(method_views(kept@) =~= method_views(kept@).drop_last().push(mv));
            }
            i += 1;
        }
        assert(old_methods.subrange(0, old_methods.len() as int) =~= old_methods);
        self.methods = kept;
        self.variables = Self::used_variables(self.methods.as_slice());
    }

    /// Returns the first method named `name`.
    pub fn method(&self, name: &str) -> (r: &Method<T>)
        requires
            exists|i: int| 0 <= i < self@.methods.len() && (#[trigger] self@.methods[i]).name == name@,
        ensures
            exists|i: int|
                0 <= i < self@.methods.len() && self@.methods[i] == r@ && r@.name == name@ && forall|
                    j: int,
                | 0 <= j < i ==> (#[trigger] self@.methods[j]).name != name@,
    {
        let mut i: usize = 0;
        while i < self.methods.len()
            invariant
                i <= self.methods@.len(),
                forall|j: int| 0 <= j < i ==> (#[trigger] self@.methods[j]).name != name@,
                exists|k: int| i <= k < self@.methods.len() && (#[trigger] self@.methods[k]).name == name@,
            decreases self.methods@.len() - i,
        {
            if str_equal(self.methods[i].name(), name) {
                assert(self@.methods[i as int] == self.methods@[i as int]@);
                return &self.methods[i];
            }
            assert(self@.methods[i as int] == self.methods@[i as int]@);
            i += 1;
        }
        proof {
            let k = choose|k: int| i <= k < self@.methods.len() && (#[trigger] self@.methods[k]).name == name@;
        }
        &self.methods[0]
    }
}

/// Whether `x` occurs in `s`.
pub fn contains_index(s: &[usize], x: usize) -> (r: bool)
    ensures
        r == s@.contains(x),
{
    let mut i: usize = 0;
    while i < s.len()
        invariant
            i <= s@.len(),
            forall|j: int| 0 <= j < i ==> s@[j] != x,
        decreases s@.len() - i,
    {
        if s[i] == x {
            return true;
        }
        i += 1;
    }
    false
}

/// Compares two strings character by character.
pub fn str_equal(a: &str, b: &str) -> (r: bool)
    ensures
        r == (a@ == b@),
{
    let a = a.to_owned();
    let b = b.to_owned();
    a == b
}

impl<T: 'static> PartialEq for Constraint<T> {
    fn eq(&self, other: &Self) -> (r: bool) {
        if self.name != other.name || self.methods.len() != other.methods.len() {
            assert(self@.methods.len() == self.methods@.len() && other@.methods.len() == other.methods@.len());
            return false;
        }
        let mut i: usize = 0;
        while i < self.methods.len()
            invariant
                self.methods@.len() == other.methods@.len(),
                i <= self.methods@.len(),
                forall|j: int| 0 <= j < i ==> self.methods@[j]@ == other.methods@[j]@,
            decreases self.methods@.len() - i,
        {
            if self.methods[i] != other.methods[i] {
                assert(self@.methods[i as int] == self.methods@[i as int]@);
                assert(other@.methods[i as int] == other.methods@[i as int]@);
                return false;
            }
            i += 1;
        }
        assert(self@.methods =~= other@.methods);
        true
    }
}

impl<T: 'static> vstd::std_specs::cmp::PartialEqSpecImpl for Constraint<T> {
    open spec fn obeys_eq_spec() -> bool {
        true
    }

    open spec fn eq_spec(&self, other: &Self) -> bool {
        self@.name == other@.name && self@.methods == other@.methods
    }
}

/// Keeping some methods keeps only methods that were there, and no new variables.
pub proof fn lemma_filter_methods(ms: Seq<MethodView>, keep: spec_fn(MethodView) -> bool)
    ensures
        forall|m: MethodView| #[trigger] ms.filter(keep).contains(m) ==> ms.contains(m) && keep(m),
        forall|x: usize| used_by(ms.filter(keep), x) ==> used_by(ms, x),
    decreases ms.len(),
{
    reveal_with_fuel(Seq::filter, 1);
    if ms.len() > 0 {
        let r = ms.drop_last();
        let last = ms.last();
        lemma_filter_methods(r, keep);
        assert(ms =~= r.push(last));
        let f = ms.filter(keep);
        let g = r.filter(keep);
        if keep(last) {
            assert(f =~= g.push(last));
        } else {
            assert(f =~= g);
        }
        assert forall|m: MethodView| #[trigger] f.contains(m) implies ms.contains(m) && keep(m) by {
            let k = choose|k: int| 0 <= k < f.len() && f[k] == m;
            if k < g.len() {
                assert(g[k] == m);
                assert(g.contains(m));
                let j = choose|j: int| 0 <= j < r.len() && r[j] == m;
                assert(ms[j] == m);
            } else {
                assert(ms[ms.len() - 1] == m);
            }
        }
        assert forall|x: usize| used_by(f, x) implies used_by(ms, x) by {
            let k = choose|k: int| 0 <= k < f.len() && (#[trigger] f[k].inputs.contains(x) || f[k].outputs.contains(x));
            assert(f.contains(f[k]));
            let j = choose|j: int| 0 <= j < ms.len() && ms[j] == f[k];
            assert(ms[j].inputs.contains(x) || ms[j].outputs.contains(x));
        }
    }
}

/// A method of `ms` that reads or writes `x`, when there is one.
pub proof fn lemma_used_by_witness(ms: Seq<MethodView>, x: usize) -> (q: int)
    requires
        used_by(ms, x),
    ensures
        0 <= q < ms.len(),
        ms[q].inputs.contains(x) || ms[q].outputs.contains(x),
{
    choose|i: int|
        #![trigger ms[i].inputs.contains(x)]
        #![trigger ms[i].outputs.contains(x)]
        0 <= i < ms.len() && (ms[i].inputs.contains(x) || ms[i].outputs.contains(x))
}

} // verus!
