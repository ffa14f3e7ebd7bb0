//! Components, constraints and methods that refer to variables by name, before the names are
//! resolved to indices.

use crate::activation::State;
use crate::component::Component;
use crate::error::SolveError;
use crate::constraint::{method_views, Assert, Constraint};
use crate::method::{Method, MethodFunction, MethodView};
use crate::name_map::{lookup, NameMap};
use crate::simple_planner::{constraint_views, system_wf};
use crate::vertex::Vertex;
use vstd::prelude::*;

verus! {

/// The views of a sequence of strings.
pub open spec fn string_views(names: Seq<String>) -> Seq<Seq<char>> {
    names.map_values(|s: String| s@)
}

/// Every name of `names` is mapped by `map`.
pub open spec fn all_defined(names: Seq<String>, map: Seq<(Seq<char>, usize)>) -> bool {
    forall|k: int| 0 <= k < names.len() ==> #[trigger] lookup(map, names[k]@) is Some
}

/// The indices that `map` gives the names of `names`.
pub open spec fn resolved(names: Seq<String>, map: Seq<(Seq<char>, usize)>) -> Seq<usize> {
    names.map_values(|s: String| lookup(map, s@)->0)
}

/// The method that `m` becomes once its variables are resolved in `map`.
pub open spec fn raw_method_view<T>(m: RawMethod<T>, map: Seq<(Seq<char>, usize)>) -> MethodView {
    MethodView {
        is_stay: false,
        name: m.name_view(),
        inputs: resolved(m.input_names(), map),
        outputs: resolved(m.output_names(), map),
    }
}

/// Resolves each of `names` to its index in `map`.
fn resolve(names: &Vec<String>, map: &NameMap) -> (r: Vec<usize>)
    requires
        map.wf(),
        all_defined(names@, map@),
    ensures
        r@ == resolved(names@, map@),
{
    let mut r: Vec<usize> = Vec::new();
    let mut k: usize = 0;
    while k < names.len()
        invariant
            map.wf(),
            all_defined(names@, map@),
            k <= names@.len(),
            r@.len() == k,
            forall|j: int| 0 <= j < k ==> #[trigger] r@[j] == lookup(map@, names@[j]@)->0,
        decreases names@.len() - k,
    {
        let index = match map.get(names[k].as_str()) {
            Some(index) => index,
            None => 0,
        };
        r.push(index);
        k += 1;
    }
    assert(r@ =~= resolved(names@, map@));
    r
}

/// Owned copies of the strings `names`.
fn owned_names(names: Vec<&str>) -> (r: Vec<String>)
    ensures
        string_views(r@) == names@.map_values(|s: &str| s@),
{
    let mut r: Vec<String> = Vec::new();
    let mut k: usize = 0;
    while k < names.len()
        invariant
            k <= names@.len(),
            r@.len() == k,
            forall|j: int| 0 <= j < k ==> #[trigger] r@[j]@ == names@[j]@,
        decreases names@.len() - k,
    {
        r.push(names[k].to_owned());
        k += 1;
    }
    assert(string_views(r@) =~= names@.map_values(|s: &str| s@));
    r
}

/// A method whose inputs and outputs are variable names.
#[verifier::reject_recursive_types(T)]
#[derive(Clone, Debug)]
pub struct RawMethod<T: 'static> {
    name: String,
    inputs: Vec<String>,
    outputs: Vec<String>,
    apply: MethodFunction<T>,
}

impl<T: 'static> RawMethod<T> {
    /// The name of the method.
    pub closed spec fn name_view(&self) -> Seq<char> {
        self.name@
    }

    /// The names of the variables the method reads.
    pub closed spec fn input_names(&self) -> Seq<String> {
        self.inputs@
    }

    /// The names of the variables the method writes.
    pub closed spec fn output_names(&self) -> Seq<String> {
        self.outputs@
    }

    /// A method named `name` that reads the variables `inputs` and writes the variables `outputs` with `apply`.
    pub fn new(name: &str, inputs: Vec<&str>, outputs: Vec<&str>, apply: MethodFunction<T>) -> (r: Self)
        ensures
            r.name_view() == name@,
            string_views(r.input_names()) == inputs@.map_values(|s: &str| s@),
            string_views(r.output_names()) == outputs@.map_values(|s: &str| s@),
    {
        RawMethod { name: name.to_owned(), inputs: owned_names(inputs), outputs: owned_names(outputs), apply }
    }

    /// Converts the method to one that refers to variables by their indices in `var_to_idx`.
    pub fn into_method(self, var_to_idx: &NameMap) -> (r: Method<T>)
        requires
            var_to_idx.wf(),
            all_defined(self.input_names(), var_to_idx@),
            all_defined(self.output_names(), var_to_idx@),
        ensures
            r.name_view() == self.name_view(),
            r.input_vars() == resolved(self.input_names(), var_to_idx@),
            r.output_vars() == resolved(self.output_names(), var_to_idx@),
            !r.stays(),
    {
        let inputs = resolve(&self.inputs, var_to_idx);
        let outputs = resolve(&self.outputs, var_to_idx);
        Method::new(self.name, inputs, outputs, self.apply)
    }
}

impl<T: 'static> PartialEq for RawMethod<T> {
    fn eq(&self, other: &Self) -> (r: bool) {
        crate::constraint::str_equal(self.name.as_str(), other.name.as_str()) && strings_equal(&self.inputs, &other.inputs)
            && strings_equal(&self.outputs, &other.outputs)
    }
}

impl<T: 'static> vstd::std_specs::cmp::PartialEqSpecImpl for RawMethod<T> {
    open spec fn obeys_eq_spec() -> bool {
        true
    }

    open spec fn eq_spec(&self, other: &Self) -> bool {
        same_raw_method(*self, *other)
    }
}

/// `a` and `b` have the same name, inputs and outputs.
pub open spec fn same_raw_method<T: 'static>(a: RawMethod<T>, b: RawMethod<T>) -> bool {
    &&& a.name_view() == b.name_view()
    &&& string_views(a.input_names()) == string_views(b.input_names())
    &&& string_views(a.output_names()) == string_views(b.output_names())
}

/// Compares two lists of strings.
fn strings_equal(a: &Vec<String>, b: &Vec<String>) -> (r: bool)
    ensures
        r == (string_views(a@) == string_views(b@)),
{
    if a.len() != b.len() {
        assert(string_views(a@).len() != string_views(b@).len());
        return false;
    }
    let mut k: usize = 0;
    while k < a.len()
        invariant
            a@.len() == b@.len(),
            k <= a@.len(),
            forall|j: int| 0 <= j < k ==> #[trigger] a@[j]@ == b@[j]@,
        decreases a@.len() - k,
    {
        if !crate::constraint::str_equal(a[k].as_str(), b[k].as_str()) {
            assert(string_views(a@)[k as int] != string_views(b@)[k as int]);
            return false;
        }
        k += 1;
    }
    assert(string_views(a@) =~= string_views(b@));
    true
}

/// A constraint whose methods refer to variables by name.
#[verifier::reject_recursive_types(T)]
#[derive(Clone, Debug)]
pub struct RawConstraint<T: 'static> {
    name: String,
    methods: Vec<RawMethod<T>>,
    assert: Option<Assert<T>>,
}

/// Every variable that a method of `methods` reads or writes is mapped by `map`.
pub open spec fn methods_defined<T: 'static>(methods: Seq<RawMethod<T>>, map: Seq<(Seq<char>, usize)>) -> bool {
    forall|k: int|
        0 <= k < methods.len() ==> all_defined((#[trigger] methods[k]).input_names(), map) && all_defined(
            methods[k].output_names(),
            map,
        )
}

impl<T: 'static> RawConstraint<T> {
    /// The name of the constraint.
    pub closed spec fn name_view(&self) -> Seq<char> {
        self.name@
    }

    /// The methods of the constraint.
    pub closed spec fn raw_methods(&self) -> Seq<RawMethod<T>> {
        self.methods@
    }

    /// A constraint named `name` with the methods `methods`, without an assertion.
    pub fn new(name: &str, methods: Vec<RawMethod<T>>) -> (r: Self)
        ensures
            r.name_view() == name@,
            r.raw_methods() == methods@,
    {
        RawConstraint { name: name.to_owned(), methods, assert: None }
    }

    /// A constraint named `name` with the methods `methods` and the assertion `assert`.
    pub fn new_with_assert(name: &str, methods: Vec<RawMethod<T>>, assert: Option<Assert<T>>) -> (r: Self)
        ensures
            r.name_view() == name@,
            r.raw_methods() == methods@,
    {
        RawConstraint { name: name.to_owned(), methods, assert }
    }

    /// Converts the constraint to one whose methods refer to variables by their indices in `var_to_idx`.
    pub fn into_constraint(self, var_to_idx: &NameMap) -> (r: Constraint<T>)
        requires
            var_to_idx.wf(),
            methods_defined(self.raw_methods(), var_to_idx@),
        ensures
            r@.name == self.name_view(),
            r@.methods.len() == self.raw_methods().len(),
            forall|k: int|
                0 <= k < r@.methods.len() ==> (#[trigger] r@.methods[k]).name == self.raw_methods()[k].name_view()
                    && r@.methods[k].inputs == resolved(self.raw_methods()[k].input_names(), var_to_idx@)
                    && r@.methods[k].outputs == resolved(self.raw_methods()[k].output_names(), var_to_idx@)
                    && !r@.methods[k].is_stay,
            r.wf(),
    {
        let ghost raw = self.methods@;
        let mut rest = self.methods;
        let mut methods: Vec<Method<T>> = Vec::new();
        let n = rest.len();
        let mut k: usize = 0;
        while k < n
            invariant
                var_to_idx.wf(),
                n == raw.len(),
                k <= n,
                rest@ == raw.subrange(k as int, n as int),
                methods_defined(raw, var_to_idx@),
                methods@.len() == k,
                forall|j: int|
                    0 <= j < k ==> (#[trigger] methods@[j]).name_view() == raw[j].name_view() && methods@[j].input_vars()
                        == resolved(raw[j].input_names(), var_to_idx@) && methods@[j].output_vars() == resolved(
                        raw[j].output_names(),
                        var_to_idx@,
                    ) && !methods@[j].stays(),
            decreases n - k,
        {
            let m = rest.remove(0);
            assert(m == raw[k as int]);
            methods.push(m.into_method(var_to_idx));
            k += 1;
        }
        Constraint::new_with_name_and_assert(self.name, methods, self.assert)
    }
}

impl<T: 'static> PartialEq for RawConstraint<T> {
    fn eq(&self, other: &Self) -> (r: bool) {
        if !crate::constraint::str_equal(self.name.as_str(), other.name.as_str()) || self.methods.len() != other.methods.len() {
            return false;
        }
        let mut k: usize = 0;
        while k < self.methods.len()
            invariant
                self.methods@.len() == other.methods@.len(),
                k <= self.methods@.len(),
                forall|j: int| 0 <= j < k ==> same_raw_method(#[trigger] self.methods@[j], other.methods@[j]),
            decreases self.methods@.len() - k,
        {
            if self.methods[k] != other.methods[k] {
                return false;
            }
            k += 1;
        }
        true
    }
}

impl<T: 'static> vstd::std_specs::cmp::PartialEqSpecImpl for RawConstraint<T> {
    open spec fn obeys_eq_spec() -> bool {
        true
    }

    open spec fn eq_spec(&self, other: &Self) -> bool {
        &&& self.name_view() == other.name_view()
        &&& self.raw_methods().len() == other.raw_methods().len()
        &&& forall|j: int| 0 <= j < self.raw_methods().len() ==> same_raw_method(#[trigger] self.raw_methods()[j], other.raw_methods()[j])
    }
}

/// A component whose constraints refer to variables by name.
#[verifier::reject_recursive_types(T)]
#[derive(Clone, Debug, PartialEq)]
pub struct RawComponent<'a, T: 'static> {
    name: &'a str,
    variables: Vec<&'a str>,
    values: Vec<T>,
    constraints: Vec<RawConstraint<T>>,
}

impl<'a, T: 'static> RawComponent<'a, T> {
    /// The name of the component.
    pub closed spec fn name_view(&self) -> Seq<char> {
        self.name@
    }

    /// The names of the variables.
    pub closed spec fn variable_names(&self) -> Seq<&'a str> {
        self.variables@
    }

    /// The values of the variables.
    pub closed spec fn values_view(&self) -> Seq<T> {
        self.values@
    }

    /// The constraints of the component.
    pub closed spec fn raw_constraints(&self) -> Seq<RawConstraint<T>> {
        self.constraints@
    }

    /// A component named `name` whose variables `variables` have the values `values`, with the constraints `constraints`.
    pub fn new(name: &'a str, variables: Vec<&'a str>, values: Vec<T>, constraints: Vec<RawConstraint<T>>) -> (r: Self)
        ensures
            r.name_view() == name@,
            r.variable_names() == variables@,
            r.values_view() == values@,
            r.raw_constraints() == constraints@,
    {
        RawComponent { name, variables, values, constraints }
    }

    /// The map from each variable name to its index; a name that occurs twice maps to its last index.
    pub fn indices(&self) -> (r: NameMap)
        ensures
            r.wf(),
            forall|n: Seq<char>| #[trigger] r.get_spec(n) == self.indices_spec(n),
            forall|k: int| 0 <= k < r@.len() ==> (#[trigger] r@[k]).1 < self.variable_names().len(),
    {
        let mut name_to_index = NameMap::new();
        let mut i: usize = 0;
        while i < self.variables.len()
            invariant
                i <= self.variables@.len(),
                name_to_index.wf(),
                forall|k: int| 0 <= k < name_to_index@.len() ==> (#[trigger] name_to_index@[k]).1 < i,
                forall|n: Seq<char>| #[trigger] name_to_index.get_spec(n) == last_position(self.variables@.subrange(0, i as int), n),
            decreases self.variables@.len() - i,
        {
            let ghost before = name_to_index;
            name_to_index.insert(self.variables[i].to_owned(), i);
            proof {
                let s = self.variables@.subrange(0, i + 1);
                assert(s.drop_last() =~= self.variables@.subrange(0, i as int));
                assert forall|n: Seq<char>| #[trigger] name_to_index.get_spec(n) == last_position(s, n) by {
                    lemma_last_position_push(self.variables@.subrange(0, i as int), self.variables@[i as int], n);
                    assert(self.variables@.subrange(0, i as int).push(self.variables@[i as int]) =~= s);
                }
                assert forall|k: int| 0 <= k < name_to_index@.len() implies (#[trigger] name_to_index@[k]).1 < i + 1 by {
                    let e = name_to_index@[k];
                    assert(name_to_index.get_spec(e.0) == Some(e.1)) by {
                        let j = choose|j: int| 0 <= j < name_to_index@.len() && (#[trigger] name_to_index@[j]).0 == e.0;
                        assert(j == k);
                    }
                    if e.1 != i {
                        assert(before.get_spec(e.0) == Some(e.1));
                        let j = choose|j: int| 0 <= j < before@.len() && (#[trigger] before@[j]).0 == e.0;
                        assert(before@[j].1 < i);
                    }
                }
            }
            i += 1;
        }
        assert(self.variables@.subrange(0, self.variables@.len() as int) =~= self.variables@);
        name_to_index
    }

    /// Adds a constraint.
    pub fn add_constraint(&mut self, c: RawConstraint<T>)
        ensures
            final(self).raw_constraints() == old(self).raw_constraints().push(c),
            final(self).name_view() == old(self).name_view(),
            final(self).variable_names() == old(self).variable_names(),
            final(self).values_view() == old(self).values_view(),
    {
        self.constraints.push(c);
    }
}

/// Every name of `names` is one of `variables`.
pub open spec fn declared(variables: Seq<&str>, names: Seq<String>) -> bool {
    forall|k: int| 0 <= k < names.len() ==> exists|i: int| 0 <= i < variables.len() && #[trigger] variables[i]@ == (#[trigger] names[k])@
}

/// Every variable that a method of a constraint of `constraints` reads or writes is one of `variables`.
pub open spec fn constraints_declared<T: 'static>(variables: Seq<&str>, constraints: Seq<RawConstraint<T>>) -> bool {
    forall|c: int, k: int|
        0 <= c < constraints.len() && 0 <= k < constraints[c].raw_methods().len() ==> declared(
            variables,
            (#[trigger] constraints[c].raw_methods()[k]).input_names(),
        ) && declared(variables, constraints[c].raw_methods()[k].output_names())
}

impl<'a, T: 'static> RawComponent<'a, T> {
    /// Converts the component to one whose constraints refer to variables by index, with the
    /// variables named as by [`RawComponent::indices`]. Each constraint lists the variables its
    /// methods use, each once; every variable counts as modified, ranked by its index, and the
    /// component is at its first generation.
    pub fn into_component(self) -> (r: Component<T>)
        requires
            constraints_declared(self.variable_names(), self.raw_constraints()),
            self.variable_names().len() <= self.values_view().len(),
        ensures
            r.wf(),
            r.name_view() == self.name_view(),
            r.n_vars() == self.values_view().len(),
            forall|i: int| 0 <= i < self.values_view().len() ==> (#[trigger] r.values()[i]).shared_state.value_spec() == self.values_view()[i],
            r.constraints_view().len() == self.raw_constraints().len(),
            forall|c: int| 0 <= c < r.constraints_view().len() ==> (#[trigger] r.constraints_view()[c]).name == self.raw_constraints()[c].name_view()
                && r.constraints_view()[c].methods.len() == self.raw_constraints()[c].raw_methods().len(),
            forall|n: Seq<char>| #[trigger] r.index_of(n) == self.indices_spec(n),
            forall|i: int| 0 <= i < self.values_view().len() ==> (#[trigger] r.values()[i]).shared_state.state_spec()
                == State::<SolveError>::Ready,
            forall|c: int, k: int|
                0 <= c < r.constraints_view().len() && 0 <= k < r.constraints_view()[c].methods.len() ==> #[trigger] r.constraints_view()[c].methods[k]
                    == raw_method_view(self.raw_constraints()[c].raw_methods()[k], r.names()),
            forall|c: int| 0 <= c < r.constraints_view().len() ==> crate::constraint::lists_used_variables(
                (#[trigger] r.constraints_view()[c]).variables,
                r.constraints_view()[c].methods,
            ),
            r.updated().len() == self.values_view().len(),
            forall|i: int| 0 <= i < self.values_view().len() ==> #[trigger] r.updated()[i] == i,
            forall|i: int| 0 <= i < self.values_view().len() ==> #[trigger] r.ranking_view()[i] == i,
            r.generation_spec() == 0,
    {
        let var_to_idx = self.indices();
        let ghost map = var_to_idx@;
        let ghost raw = self.constraints@;
        let n_vars = self.values.len();
        proof {
            assert forall|c: int| 0 <= c < raw.len() implies methods_defined(#[trigger] raw[c].raw_methods(), map) by {
                assert forall|k: int| 0 <= k < raw[c].raw_methods().len() implies all_defined((#[trigger] raw[c].raw_methods()[k]).input_names(), map)
                    && all_defined(raw[c].raw_methods()[k].output_names(), map) by {
                    let m = raw[c].raw_methods()[k];
                    assert(declared(self.variables@, m.input_names()));
                    assert(declared(self.variables@, m.output_names()));
                    assert forall|j: int| 0 <= j < m.input_names().len() implies #[trigger] lookup(map, m.input_names()[j]@) is Some by {
                        assert(exists|i: int| 0 <= i < self.variables@.len() && #[trigger] self.variables@[i]@ == (#[trigger] m.input_names()[j])@);
                        let i = choose|i: int| 0 <= i < self.variables@.len() && #[trigger] self.variables@[i]@ == m.input_names()[j]@;
                        lemma_last_position_some(self.variables@, i);
                        assert(var_to_idx.get_spec(m.input_names()[j]@) is Some);
                    }
                    assert forall|j: int| 0 <= j < m.output_names().len() implies #[trigger] lookup(map, m.output_names()[j]@) is Some by {
                        assert(exists|i: int| 0 <= i < self.variables@.len() && #[trigger] self.variables@[i]@ == (#[trigger] m.output_names()[j])@);
                        let i = choose|i: int| 0 <= i < self.variables@.len() && #[trigger] self.variables@[i]@ == m.output_names()[j]@;
                        lemma_last_position_some(self.variables@, i);
                        assert(var_to_idx.get_spec(m.output_names()[j]@) is Some);
                    }
                }
            }
        }
        // Create constraints
        let mut rest = self.constraints;
        let mut constraints: Vec<Constraint<T>> = Vec::new();
        let n = rest.len();
        let mut k: usize = 0;
        while k < n
            invariant
                var_to_idx.wf(),
                map == var_to_idx@,
                forall|e: int| 0 <= e < map.len() ==> (#[trigger] map[e]).1 < n_vars,
                n == raw.len(),
                k <= n,
                rest@ == raw.subrange(k as int, n as int),
                forall|c: int| 0 <= c < raw.len() ==> methods_defined(#[trigger] raw[c].raw_methods(), map),
                constraints@.len() == k,
                system_wf(n_vars as nat, constraint_views(constraints@)),
                forall|c: int| 0 <= c < k ==> (#[trigger] constraints@[c])@.name == raw[c].name_view()
                    && constraints@[c]@.methods.len() == raw[c].raw_methods().len(),
                forall|c: int, q: int|
                    0 <= c < k && 0 <= q < constraints@[c]@.methods.len() ==> #[trigger] constraints@[c]@.methods[q]
                        == raw_method_view(raw[c].raw_methods()[q], map),
            decreases n - k,
        {
            let c = rest.remove(0);
            assert(c == raw[k as int]);
            let ghost rm = c.raw_methods();
            let constraint = c.into_constraint(&var_to_idx);
            proof {
                let cv = constraint@;
                assert forall|x: usize| #[trigger] cv.variables.contains(x) implies x < n_vars by {
                    assert(crate::constraint::used_by(cv.methods, x));
                    let q = crate::constraint::lemma_used_by_witness(cv.methods, x);
                    assert(methods_defined(rm, map));
                    assert(cv.methods.len() == rm.len());
                    assert(0 <= q < rm.len());
                    let rq = rm[q];
                    assert(all_defined(rq.input_names(), map) && all_defined(rq.output_names(), map));
                    if cv.methods[q].inputs.contains(x) {
                        let names = rm[q].input_names();
                        let w = choose|w: int| 0 <= w < resolved(names, map).len() && resolved(names, map)[w] == x;
                        assert(lookup(map, names[w]@) is Some);
                        let e = choose|e: int| 0 <= e < map.len() && (#[trigger] map[e]).0 == names[w]@;
                        assert(map[e].1 < n_vars);
                    } else {
                        let names = rm[q].output_names();
                        let w = choose|w: int| 0 <= w < resolved(names, map).len() && resolved(names, map)[w] == x;
                        assert(lookup(map, names[w]@) is Some);
                        let e = choose|e: int| 0 <= e < map.len() && (#[trigger] map[e]).0 == names[w]@;
                        assert(map[e].1 < n_vars);
                    }
                }
                crate::simple_planner::lemma_system_wf_push(n_vars as nat, constraint_views(constraints@), cv);
            }
            let ghost before = constraints@;
            proof {
                assert forall|q: int| 0 <= q < constraint@.methods.len() implies #[trigger] constraint@.methods[q] == raw_method_view(
                    rm[q],
                    map,
                ) by {}
            }
            constraints.push(constraint);
            assert(constraint_views(constraints@) =~= constraint_views(before).push(constraint@));
            proof {
                assert forall|c: int, q: int|
                    0 <= c < k + 1 && 0 <= q < constraints@[c]@.methods.len() implies #[trigger] constraints@[c]@.methods[q]
                        == raw_method_view(raw[c].raw_methods()[q], map) by {
                    if c < k {
                        assert(constraints@[c] == before[c]);
                    }
                }
            }
            k += 1;
        }

        // Combine into component
        let r = Component::new_with_map(self.name.to_owned(), var_to_idx, self.values, constraints);
        proof {
            assert forall|n: Seq<char>| #[trigger] r.index_of(n) == self.indices_spec(n) by {
                assert(var_to_idx.get_spec(n) == self.indices_spec(n));
            }
        }
        r
    }

    /// The index that [`RawComponent::indices`] gives the name `n`.
    pub open spec fn indices_spec(&self, n: Seq<char>) -> Option<usize> {
        last_position(self.variable_names(), n)
    }
}

/// The last position at which `n` occurs among the names `s`.
pub open spec fn last_position(s: Seq<&str>, n: Seq<char>) -> Option<usize>
    decreases s.len(),
{
    if s.len() == 0 {
        None
    } else if s.last()@ == n {
        Some((s.len() - 1) as usize)
    } else {
        last_position(s.drop_last(), n)
    }
}

/// Adding a name at the end makes it the last position of that name.
proof fn lemma_last_position_push(s: Seq<&str>, x: &str, n: Seq<char>)
    ensures
        last_position(s.push(x), n) == if x@ == n { Some(s.len() as usize) } else { last_position(s, n) },
{
    assert(s.push(x).drop_last() =~= s);
}

/// A name that occurs among `s` has a last position.
proof fn lemma_last_position_some(s: Seq<&str>, i: int)
    requires
        0 <= i < s.len(),
    ensures
        last_position(s, s[i]@) is Some,
    decreases s.len(),
{
    if s.last()@ != s[i]@ {
        assert(s.drop_last()[i] == s[i]);
        lemma_last_position_some(s.drop_last(), i);
    }
}

} // verus!
