//! Builders for components, constraints and methods that refer to variables by name.

use crate::error::{MethodFailure, MutabilityMismatch};
use crate::method::MethodFunction;
use vstd::prelude::*;

verus! {

/// An input to a method: a variable, read through an immutable or a mutable reference.
#[derive(Clone, Debug, PartialEq, Eq)]
pub enum MethodInput {
    /// An immutable reference to the variable.
    Ref(String),
    /// A mutable reference to the variable.
    MutRef(String),
}

impl MethodInput {
    /// An immutable reference to the variable named `name`.
    pub fn make_ref(name: &str) -> (r: Self)
        ensures
            r matches MethodInput::Ref(n) && n@ == name@,
    {
        MethodInput::Ref(name.to_owned())
    }

    /// A mutable reference to the variable named `name`.
    pub fn make_mut_ref(name: &str) -> (r: Self)
        ensures
            r matches MethodInput::MutRef(n) && n@ == name@,
    {
        MethodInput::MutRef(name.to_owned())
    }
}

/// An output of a method: the variable it writes.
#[derive(Clone, Debug, Default, PartialEq, Eq)]
pub struct MethodOutput {
    name: String,
}

impl MethodOutput {
    /// The name of the variable.
    pub closed spec fn name_view(&self) -> Seq<char> {
        self.name@
    }

    /// The output that writes the variable named `name`.
    pub fn new(name: &str) -> (r: Self)
        ensures
            r.name_view() == name@,
    {
        MethodOutput { name: name.to_owned() }
    }
}

/// Why an argument of a method could not be converted to the type the method expects.
#[derive(Copy, Clone, Debug, PartialEq, Eq, Structural)]
pub enum ConversionError {
    /// The reference had the wrong mutability.
    MutabilityMismatch(MutabilityMismatch),
    /// The value had another type.
    TypeConversionFailure,
}

/// An argument passed to a method: an immutable or a mutable reference to a value, matching
/// what the method expects of the corresponding input.
#[derive(Debug, PartialEq, Eq)]
pub enum MethodArg<'a, T> {
    /// An immutable reference.
    Ref(&'a T),
    /// A mutable reference.
    MutRef(&'a mut T),
}

impl<'a, T> From<&'a T> for MethodArg<'a, T> {
    fn from(r: &'a T) -> (a: Self) {
        MethodArg::Ref(r)
    }
}

impl<'a, T> vstd::std_specs::convert::FromSpecImpl<&'a T> for MethodArg<'a, T> {
    open spec fn obeys_from_spec() -> bool {
        true
    }

    open spec fn from_spec(r: &'a T) -> Self {
        MethodArg::Ref(r)
    }
}

impl<'a, T> MethodArg<'a, T> {
    /// Converts the argument to an immutable reference to a `U`.
    ///
    /// Fails with a mutability mismatch if the argument is a mutable reference, and with a type
    /// conversion failure if the conversion of the reference fails.
    pub fn try_into_ref<U>(self) -> (r: Result<&'a U, ConversionError>)
        where &'a T: std::convert::TryInto<&'a U>,
        ensures
            self is MutRef ==> r == Err::<&'a U, ConversionError>(
                ConversionError::MutabilityMismatch(MutabilityMismatch::ExpectedImmutableGotMutable),
            ),
            self is Ref ==> r is Ok || r == Err::<&'a U, ConversionError>(ConversionError::TypeConversionFailure),
    {
        match self {
            MethodArg::Ref(r) => match r.try_into() {
                Ok(r) => Ok(r),
                Err(_) => Err(ConversionError::TypeConversionFailure),
            },
            _ => Err(ConversionError::MutabilityMismatch(MutabilityMismatch::ExpectedImmutableGotMutable)),
        }
    }

    /// Converts the argument to a mutable reference to a `U`.
    ///
    /// Fails with a mutability mismatch if the argument is an immutable reference, and with a
    /// type conversion failure if the conversion of the reference fails.
    pub fn try_into_mut<U>(self) -> (r: Result<&'a mut U, ConversionError>)
        where &'a mut T: std::convert::TryInto<&'a mut U>,
        ensures
            self is Ref ==> (r matches Err(e) && e == ConversionError::MutabilityMismatch(MutabilityMismatch::ExpectedMutableGotImmutable)),
            self is MutRef ==> r is Ok || (r matches Err(e) && e == ConversionError::TypeConversionFailure),
    {
        match self {
            MethodArg::MutRef(r) => match r.try_into() {
                Ok(r) => Ok(r),
                Err(_) => Err(ConversionError::TypeConversionFailure),
            },
            _ => Err(ConversionError::MutabilityMismatch(MutabilityMismatch::ExpectedMutableGotImmutable)),
        }
    }
}

impl From<MutabilityMismatch> for MethodFailure {
    fn from(mm: MutabilityMismatch) -> (r: Self) {
        MethodFailure::MutabilityMismatch(mm)
    }
}

impl vstd::std_specs::convert::FromSpecImpl<MutabilityMismatch> for MethodFailure {
    open spec fn obeys_from_spec() -> bool {
        true
    }

    open spec fn from_spec(mm: MutabilityMismatch) -> Self {
        MethodFailure::MutabilityMismatch(mm)
    }
}

impl MethodFailure {
    /// The failure that a conversion error leads to: a mutability mismatch, or a type conversion
    /// failure of an unknown variable to an unknown type.
    pub fn from_conversion(ce: ConversionError) -> (r: Self)
        ensures
            match ce {
                ConversionError::MutabilityMismatch(mm) => r == MethodFailure::MutabilityMismatch(mm),
                ConversionError::TypeConversionFailure => r matches MethodFailure::TypeConversionFailure(v, t) && v@
                    == "<VARIABLE>"@ && t@ == "<TYPE>"@,
            },
    {
        match ce {
            ConversionError::MutabilityMismatch(mm) => MethodFailure::MutabilityMismatch(mm),
            ConversionError::TypeConversionFailure => MethodFailure::TypeConversionFailure(
                String::from_str("<VARIABLE>"),
                String::from_str("<TYPE>"),
            ),
        }
    }
}

/// A value of a sum type was not of the variant that was asked for: the names of the sum type
/// and of the variant.
#[derive(Copy, Clone, Debug, Default, PartialEq, Eq)]
pub struct WrongEnumVariant(pub &'static str, pub &'static str);

impl WrongEnumVariant {
    /// The failure that it leads to: the value of the sum type could not be converted to the
    /// variant.
    pub fn into_failure(self) -> (r: MethodFailure)
        ensures
            r matches MethodFailure::TypeConversionFailure(from, to) && from@ == self.0@ && to@ == self.1@,
    {
        MethodFailure::TypeConversionFailure(String::from_str(self.0), String::from_str(self.1))
    }
}

/// A builder for a method.
#[verifier::reject_recursive_types(T)]
#[derive(Clone, Debug)]
pub struct MethodBuilder<T: 'static> {
    name: String,
    inputs: Vec<MethodInput>,
    outputs: Vec<MethodOutput>,
    apply: Option<MethodFunction<T>>,
    pure: bool,
}

impl<T: 'static> MethodBuilder<T> {
    /// The name of the method.
    pub closed spec fn name_view(&self) -> Seq<char> {
        self.name@
    }

    /// The inputs of the method.
    pub closed spec fn inputs_view(&self) -> Seq<MethodInput> {
        self.inputs@
    }

    /// The outputs of the method.
    pub closed spec fn outputs_view(&self) -> Seq<MethodOutput> {
        self.outputs@
    }

    /// Whether the method has a function.
    pub closed spec fn has_function(&self) -> bool {
        self.apply is Some
    }

    /// Whether the method is pure.
    pub closed spec fn is_pure(&self) -> bool {
        self.pure
    }

    /// A pure method named `name` without inputs, outputs or function.
    pub fn new(name: &str) -> (r: Self)
        ensures
            r.name_view() == name@,
            r.inputs_view() == Seq::<MethodInput>::empty(),
            r.outputs_view() == Seq::<MethodOutput>::empty(),
            !r.has_function(),
            r.is_pure(),
    {
        MethodBuilder { name: name.to_owned(), inputs: Vec::new(), outputs: Vec::new(), apply: None, pure: true }
    }

    /// Adds an input that the method reads through an immutable reference.
    pub fn input(self, input: &str) -> (r: Self)
        ensures
            r.name_view() == self.name_view(),
            r.inputs_view().len() == self.inputs_view().len() + 1,
            r.inputs_view().drop_last() == self.inputs_view(),
            r.inputs_view().last() matches MethodInput::Ref(n) && n@ == input@,
            r.outputs_view() == self.outputs_view(),
            r.has_function() == self.has_function(),
            r.is_pure() == self.is_pure(),
    {
        let mut s = self;
        s.inputs.push(MethodInput::make_ref(input));
        assert(s.inputs@.drop_last() =~= self.inputs@);
        s
    }

    /// Adds an input that the method reads through a mutable reference.
    pub fn input_mut(self, input: &str) -> (r: Self)
        ensures
            r.name_view() == self.name_view(),
            r.inputs_view().len() == self.inputs_view().len() + 1,
            r.inputs_view().drop_last() == self.inputs_view(),
            r.inputs_view().last() matches MethodInput::MutRef(n) && n@ == input@,
            r.outputs_view() == self.outputs_view(),
            r.has_function() == self.has_function(),
            r.is_pure() == self.is_pure(),
    {
        let mut s = self;
        s.inputs.push(MethodInput::make_mut_ref(input));
        assert(s.inputs@.drop_last() =~= self.inputs@);
        s
    }

    /// Replaces the inputs.
    pub fn inputs(self, inputs: Vec<MethodInput>) -> (r: Self)
        ensures
            r.name_view() == self.name_view(),
            r.inputs_view() == inputs@,
            r.outputs_view() == self.outputs_view(),
            r.has_function() == self.has_function(),
            r.is_pure() == self.is_pure(),
    {
        let mut s = self;
        s.inputs = inputs;
        s
    }

    /// Replaces the outputs.
    pub fn outputs(self, outputs: Vec<MethodOutput>) -> (r: Self)
        ensures
            r.name_view() == self.name_view(),
            r.inputs_view() == self.inputs_view(),
            r.outputs_view() == outputs@,
            r.has_function() == self.has_function(),
            r.is_pure() == self.is_pure(),
    {
        let mut s = self;
        s.outputs = outputs;
        s
    }

    /// Sets the function of the method.
    pub fn apply(self, apply: MethodFunction<T>) -> (r: Self)
        ensures
            r.name_view() == self.name_view(),
            r.inputs_view() == self.inputs_view(),
            r.outputs_view() == self.outputs_view(),
            r.has_function(),
            r.is_pure() == self.is_pure(),
    {
        let mut s = self;
        s.apply = Some(apply);
        s
    }

    /// Returns the function of the method, if it has been set.
    pub fn function(&self) -> (r: Option<MethodFunction<T>>)
        ensures
            r is Some == self.has_function(),
    {
        self.apply
    }

    /// Sets whether the method is pure.
    pub fn pure(self, pure: bool) -> (r: Self)
        ensures
            r.name_view() == self.name_view(),
            r.inputs_view() == self.inputs_view(),
            r.outputs_view() == self.outputs_view(),
            r.has_function() == self.has_function(),
            r.is_pure() == pure,
    {
        let mut s = self;
        s.pure = pure;
        s
    }
}

/// A builder for a constraint.
#[verifier::reject_recursive_types(T)]
#[derive(Clone, Debug)]
pub struct ConstraintBuilder<T: 'static> {
    name: String,
    methods: Vec<MethodBuilder<T>>,
}

impl<T: 'static> ConstraintBuilder<T> {
    /// The name of the constraint.
    pub closed spec fn name_view(&self) -> Seq<char> {
        self.name@
    }

    /// The methods of the constraint.
    pub closed spec fn methods_view(&self) -> Seq<MethodBuilder<T>> {
        self.methods@
    }

    /// A constraint named `name` without methods.
    pub fn new(name: &str) -> (r: Self)
        ensures
            r.name_view() == name@,
            r.methods_view() == Seq::<MethodBuilder<T>>::empty(),
    {
        ConstraintBuilder { name: name.to_owned(), methods: Vec::new() }
    }

    /// Adds a method.
    pub fn method(self, method: MethodBuilder<T>) -> (r: Self)
        ensures
            r.name_view() == self.name_view(),
            r.methods_view() == self.methods_view().push(method),
    {
        let mut s = self;
        s.methods.push(method);
        s
    }
}

/// How a variable of a component being built can be used by methods.
#[derive(Clone, Debug, PartialEq, Eq)]
pub enum Access {
    /// Only read, through immutable references.
    Ref,
    /// Also written through mutable references.
    MutRef,
}

/// A builder for a component.
#[verifier::reject_recursive_types(T)]
#[derive(Clone, Debug)]
pub struct ComponentBuilder<T: 'static> {
    name: String,
    variables: Vec<(String, T, Access)>,
    constraints: Vec<ConstraintBuilder<T>>,
}

/// The position of the variable named `name` among `variables`, if it is there.
pub open spec fn variable_position<T>(variables: Seq<(String, T, Access)>, name: Seq<char>) -> Option<int> {
    if exists|i: int| 0 <= i < variables.len() && (#[trigger] variables[i]).0@ == name {
        Some(choose|i: int| 0 <= i < variables.len() && (#[trigger] variables[i]).0@ == name)
    } else {
        None
    }
}

impl<T: 'static> ComponentBuilder<T> {
    /// The name of the component.
    pub closed spec fn name_view(&self) -> Seq<char> {
        self.name@
    }

    /// The variables, each with its value and access; each name occurs once.
    pub closed spec fn variables_view(&self) -> Seq<(String, T, Access)> {
        self.variables@
    }

    /// The constraints of the component.
    pub closed spec fn constraints_view(&self) -> Seq<ConstraintBuilder<T>> {
        self.constraints@
    }

    /// Each variable name occurs once.
    pub open spec fn wf(&self) -> bool {
        forall|i: int, j: int|
            0 <= i < self.variables_view().len() && 0 <= j < self.variables_view().len() && i != j ==> (#[trigger] self.variables_view()[i]).0@
                != (#[trigger] self.variables_view()[j]).0@
    }

    /// A component named `name` without variables or constraints.
    pub fn new(name: &str) -> (r: Self)
        ensures
            r.name_view() == name@,
            r.variables_view() == Seq::<(String, T, Access)>::empty(),
            r.constraints_view() == Seq::<ConstraintBuilder<T>>::empty(),
            r.wf(),
    {
        ComponentBuilder { name: name.to_owned(), variables: Vec::new(), constraints: Vec::new() }
    }

    /// Sets variable `name` to `value` with the access `access`, replacing a variable of that name.
    fn insert(self, name: &str, value: T, access: Access) -> (r: Self)
        requires
            self.wf(),
        ensures
            r.wf(),
            r.name_view() == self.name_view(),
            r.constraints_view() == self.constraints_view(),
            match variable_position(self.variables_view(), name@) {
                Some(i) => r.variables_view() == self.variables_view().update(i, r.variables_view()[i])
                    && r.variables_view()[i].0@ == name@ && r.variables_view()[i].1 == value && r.variables_view()[i].2 == access,
                None => r.variables_view().len() == self.variables_view().len() + 1 && r.variables_view().drop_last()
                    == self.variables_view() && r.variables_view().last().0@ == name@ && r.variables_view().last().1
                    == value && r.variables_view().last().2 == access,
            },
            variable_position(r.variables_view(), name@) is Some,
            forall|n: Seq<char>| #[trigger] variable_position(self.variables_view(), n) is Some ==> variable_position(
                r.variables_view(),
                n,
            ) is Some,
    {
        let ghost old_vars = self.variables@;
        let mut s = self;
        let mut i: usize = 0;
        while i < s.variables.len()
            invariant
                s.variables@ == old_vars,
                old_vars == self.variables@,
                s.name@ == self.name@,
                s.constraints@ == self.constraints@,
                forall|a: int, b: int| 0 <= a < old_vars.len() && 0 <= b < old_vars.len() && a != b ==> (#[trigger] old_vars[a]).0@
                    != (#[trigger] old_vars[b]).0@,
                i <= old_vars.len(),
                forall|j: int| 0 <= j < i ==> (#[trigger] old_vars[j]).0@ != name@,
            decreases old_vars.len() - i,
        {
            if crate::constraint::str_equal(s.variables[i].0.as_str(), name) {
                proof {
                    let k = choose|k: int| 0 <= k < old_vars.len() && (#[trigger] old_vars[k]).0@ == name@;
                    if k != i {
                        assert(old_vars[k].0@ != old_vars[i as int].0@);
                    }
                }
                let key = name.to_owned();
                s.variables.set(i, (key, value, access));
                proof {
                    let nv = s.variables@;
                    assert forall|a: int, b: int|
                        0 <= a < nv.len() && 0 <= b < nv.len() && a != b implies (#[trigger] nv[a]).0@ != (#[trigger] nv[b]).0@ by {
                        assert(old_vars[a].0@ != old_vars[b].0@);
                    }
                    assert(nv[i as int].0@ == name@);
                    assert(variable_position(self.variables_view(), name@) == Some(i as int));
                    assert(s.variables_view() == nv);
                    assert forall|n: Seq<char>| #[trigger] variable_position(self.variables_view(), n) is Some implies variable_position(
                        s.variables_view(),
                        n,
                    ) is Some by {
                        let k = choose|k: int| 0 <= k < old_vars.len() && (#[trigger] old_vars[k]).0@ == n;
                        assert(nv[k].0@ == n);
                    }
                }
                return s;
            }
            i += 1;
        }
        s.variables.push((name.to_owned(), value, access));
        proof {
            let nv = s.variables@;
            assert(nv.drop_last() =~= old_vars);
            assert forall|a: int, b: int| 0 <= a < nv.len() && 0 <= b < nv.len() && a != b implies (#[trigger] nv[a]).0@
                != (#[trigger] nv[b]).0@ by {
                if a < old_vars.len() && b < old_vars.len() {
                    assert(old_vars[a].0@ != old_vars[b].0@);
                }
            }
            assert(nv[nv.len() - 1].0@ == name@);
            assert(s.variables_view() == nv);
            assert forall|n: Seq<char>| #[trigger] variable_position(self.variables_view(), n) is Some implies variable_position(
                s.variables_view(),
                n,
            ) is Some by {
                let k = choose|k: int| 0 <= k < old_vars.len() && (#[trigger] old_vars[k]).0@ == n;
                assert(nv[k].0@ == n);
            }
        }
        s
    }

    /// Sets variable `name` to `value`, for methods to read.
    pub fn variable(self, name: &str, value: T) -> (r: Self)
        requires
            self.wf(),
        ensures
            r.wf(),
            r.name_view() == self.name_view(),
            r.constraints_view() == self.constraints_view(),
            match variable_position(self.variables_view(), name@) {
                Some(i) => r.variables_view() == self.variables_view().update(i, r.variables_view()[i])
                    && r.variables_view()[i].1 == value && r.variables_view()[i].2 == Access::Ref,
                None => r.variables_view().len() == self.variables_view().len() + 1 && r.variables_view().drop_last()
                    == self.variables_view() && r.variables_view().last().0@ == name@ && r.variables_view().last().1
                    == value && r.variables_view().last().2 == Access::Ref,
            },
    {
        self.insert(name, value, Access::Ref)
    }

    /// Sets variable `name` to `value`, for methods to read and write.
    pub fn variable_mut(self, name: &str, value: T) -> (r: Self)
        requires
            self.wf(),
        ensures
            r.wf(),
            r.name_view() == self.name_view(),
            r.constraints_view() == self.constraints_view(),
            match variable_position(self.variables_view(), name@) {
                Some(i) => r.variables_view() == self.variables_view().update(i, r.variables_view()[i])
                    && r.variables_view()[i].1 == value && r.variables_view()[i].2 == Access::MutRef,
                None => r.variables_view().len() == self.variables_view().len() + 1 && r.variables_view().drop_last()
                    == self.variables_view() && r.variables_view().last().0@ == name@ && r.variables_view().last().1
                    == value && r.variables_view().last().2 == Access::MutRef,
            },
    {
        self.insert(name, value, Access::MutRef)
    }

    /// Sets each of `variables`, in order, for methods to read.
    pub fn variables(self, variables: Vec<(&str, T)>) -> (r: Self)
        requires
            self.wf(),
        ensures
            r.wf(),
            r.name_view() == self.name_view(),
            r.constraints_view() == self.constraints_view(),
            forall|k: int| 0 <= k < variables@.len() ==> #[trigger] variable_position(r.variables_view(), variables@[k].0@) is Some,
    {
        self.insert_all(variables, Access::Ref)
    }

    /// Sets each of `variables`, in order, for methods to read and write.
    pub fn variables_mut(self, variables: Vec<(&str, T)>) -> (r: Self)
        requires
            self.wf(),
        ensures
            r.wf(),
            r.name_view() == self.name_view(),
            r.constraints_view() == self.constraints_view(),
            forall|k: int| 0 <= k < variables@.len() ==> #[trigger] variable_position(r.variables_view(), variables@[k].0@) is Some,
    {
        self.insert_all(variables, Access::MutRef)
    }

    /// Sets each of `variables`, in order, with the access `access`.
    fn insert_all(self, variables: Vec<(&str, T)>, access: Access) -> (r: Self)
        requires
            self.wf(),
        ensures
            r.wf(),
            r.name_view() == self.name_view(),
            r.constraints_view() == self.constraints_view(),
            forall|k: int| 0 <= k < variables@.len() ==> #[trigger] variable_position(r.variables_view(), variables@[k].0@) is Some,
    {
        let ghost all = variables@;
        let mut s = self;
        let mut rest = variables;
        let n = rest.len();
        let mut k: usize = 0;
        while k < n
            invariant
                n == all.len(),
                k <= n,
                rest@ == all.subrange(k as int, n as int),
                s.wf(),
                s.name_view() == self.name_view(),
                s.constraints_view() == self.constraints_view(),
                forall|j: int| 0 <= j < k ==> #[trigger] variable_position(s.variables_view(), all[j].0@) is Some,
            decreases n - k,
        {
            let (name, value) = rest.remove(0);
            assert((name, value) == all[k as int]);
            let ghost before = s.variables_view();
            let acc = match access {
                Access::Ref => Access::Ref,
                Access::MutRef => Access::MutRef,
            };
            s = s.insert(name, value, acc);
            proof {
                assert forall|j: int| 0 <= j < k + 1 implies #[trigger] variable_position(s.variables_view(), all[j].0@) is Some by {
                    if j < k {
                        assert(variable_position(before, all[j].0@) is Some);
                    }
                }
            }
            k += 1;
        }
        s
    }

    /// Adds a constraint.
    pub fn constraint(self, constraint: ConstraintBuilder<T>) -> (r: Self)
        ensures
            r.name_view() == self.name_view(),
            r.variables_view() == self.variables_view(),
            r.constraints_view() == self.constraints_view().push(constraint),
    {
        let mut s = self;
        s.constraints.push(constraint);
        s
    }
}

} // verus!
