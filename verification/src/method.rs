//! Types for constraint satisfaction methods.
//! A [`Method`] in a [`Constraint`](crate::constraint::Constraint) should enforce the relation
//! that the constraint represents.

use crate::error::MethodFailure;
use crate::util::{decimal, slices_equal, usize_to_string};
use crate::vertex::Vertex;
use vstd::prelude::*;

verus! {

/// The function contained within a method: it computes the values of the method's
/// outputs from the values of its inputs, in the order of the inputs and outputs.
pub trait MethodFn<T>: Send + Sync + std::fmt::Debug {
    /// The function may give `r` when called with `args`. A function that says nothing more may
    /// give anything.
    open spec fn produces(&self, args: Seq<T>, r: Result<Seq<T>, MethodFailure>) -> bool {
        true
    }

    /// Computes the outputs from the inputs.
    fn call(&self, args: Vec<T>) -> (r: Result<Vec<T>, MethodFailure>)
        ensures
            self.produces(args@, result_view(r)),
    ;
}

/// `r` is what checking the function's outcome `out` against `n` outputs gives: the values when
/// there are `n` of them, a [`MethodFailure::WrongOutputCount`] otherwise, or the function's error.
pub open spec fn checked<T>(out: Result<Seq<T>, MethodFailure>, n: nat, r: Result<Seq<T>, MethodFailure>) -> bool {
    match out {
        Ok(values) => if values.len() == n {
            r == Ok::<Seq<T>, MethodFailure>(values)
        } else {
            r == Err::<Seq<T>, MethodFailure>(MethodFailure::WrongOutputCount(n as usize, values.len() as usize))
        },
        Err(e) => r == Err::<Seq<T>, MethodFailure>(e),
    }
}

/// A result with its values as a sequence.
pub open spec fn result_view<T>(r: Result<Vec<T>, MethodFailure>) -> Result<Seq<T>, MethodFailure> {
    match r {
        Ok(values) => Ok(values@),
        Err(e) => Err(e),
    }
}

/// The result of calling a method's function.
pub type MethodResult<T> = Result<Vec<T>, MethodFailure>;

/// The function contained within a method, shared between clones of the method.
pub type MethodFunction<T> = &'static dyn MethodFn<T>;

/// A method function that returns its inputs unchanged.
#[derive(Copy, Clone, Debug, Default, PartialEq, Eq)]
pub struct Identity;

impl<T> MethodFn<T> for Identity {
    open spec fn produces(&self, args: Seq<T>, r: Result<Seq<T>, MethodFailure>) -> bool {
        r == Ok::<Seq<T>, MethodFailure>(args)
    }

    fn call(&self, args: Vec<T>) -> (r: Result<Vec<T>, MethodFailure>)
        ensures
            r == Ok::<Vec<T>, MethodFailure>(args),
    {
        Ok(args)
    }
}

/// A method function that returns its first input, the function of a stay method.
#[derive(Copy, Clone, Debug, Default, PartialEq, Eq)]
pub struct KeepFirst;

impl<T> MethodFn<T> for KeepFirst {
    open spec fn produces(&self, args: Seq<T>, r: Result<Seq<T>, MethodFailure>) -> bool {
        if args.len() > 0 {
            r == Ok::<Seq<T>, MethodFailure>(seq![args[0]])
        } else {
            r == Err::<Seq<T>, MethodFailure>(MethodFailure::WrongInputCount(1, 0))
        }
    }

    fn call(&self, args: Vec<T>) -> (r: Result<Vec<T>, MethodFailure>)
        ensures
            args.len() > 0 ==> (r matches Ok(v) && v@ == seq![args[0]]),
            args.len() == 0 ==> r == Err::<Vec<T>, MethodFailure>(MethodFailure::WrongInputCount(1, 0)),
    {
        let mut args = args;
        if args.len() == 0 {
            return Err(MethodFailure::WrongInputCount(1, 0));
        }
        let first = args.remove(0);
        let mut out = Vec::new();
        out.push(first);
        Ok(out)
    }
}

/// A method for enforcing a [`Constraint`](crate::constraint::Constraint).
/// It usually has a set of input-variables, a set of output-variables,
/// and a function for creating the outputs from the inputs.
#[verifier::reject_recursive_types(T)]
#[derive(Clone, Debug)]
pub struct Method<T: 'static> {
    is_stay: bool,
    name: String,
    inputs: Vec<usize>,
    outputs: Vec<usize>,
    apply: MethodFunction<T>,
}

/// What a method is, apart from its function.
pub struct MethodView {
    /// Whether the method is a stay method.
    pub is_stay: bool,
    /// The name of the method.
    pub name: Seq<char>,
    /// The variables the method reads.
    pub inputs: Seq<usize>,
    /// The variables the method writes.
    pub outputs: Seq<usize>,
}

impl<T: 'static> View for Method<T> {
    type V = MethodView;

    closed spec fn view(&self) -> MethodView {
        MethodView { is_stay: self.is_stay, name: self.name@, inputs: self.inputs@, outputs: self.outputs@ }
    }
}

impl<T: 'static> Method<T> {
    /// The name of the method.
    pub open spec fn name_view(&self) -> Seq<char> {
        self@.name
    }

    /// The function of the method may give `r` when called with `args`.
    pub closed spec fn produces(&self, args: Seq<T>, r: Result<Seq<T>, MethodFailure>) -> bool {
        self.apply.produces(args, r)
    }

    /// Constructs a new method that reads `inputs` and writes `outputs` with `apply`.
    pub fn new(name: String, inputs: Vec<usize>, outputs: Vec<usize>, apply: MethodFunction<T>) -> (r:
        Self)
        ensures
            r.name_view() == name@,
            r.input_vars() == inputs@,
            r.output_vars() == outputs@,
            !r.stays(),
    {
        Self { is_stay: false, name, inputs, outputs, apply }
    }

    /// Creates a method that reads and writes to the same index, and returns its input unchanged.
    /// That is, if we create a method `m = stay(3)`, its only input is 3, and its only output is 3.
    pub fn stay(index: usize) -> (r: Self)
        ensures
            r.input_vars() == seq![index],
            r.output_vars() == seq![index],
            r.stays(),
            r.name_view() == "_stay_"@ + decimal(index as nat),
    {
        let mut inputs = Vec::new();
        inputs.push(index);
        let mut outputs = Vec::new();
        outputs.push(index);
        let mut name = String::from_str("_stay_");
        let digits = usize_to_string(index);
        name.append(digits.as_str());
        Self { is_stay: true, name, inputs, outputs, apply: &KeepFirst }
    }

    /// Returns a reference to the name of the method.
    pub fn name(&self) -> (r: &str)
        ensures
            r@ == self.name_view(),
    {
        self.name.as_str()
    }

    /// Checks what the method's function returned: it must produce one value per output.
    pub fn check_outputs(&self, outcome: MethodResult<T>) -> (r: MethodResult<T>)
        ensures
            match outcome {
                Ok(values) => if values.len() == self.output_vars().len() {
                    r == Ok::<Vec<T>, MethodFailure>(values)
                } else {
                    r == Err::<Vec<T>, MethodFailure>(
                        MethodFailure::WrongOutputCount(self.output_vars().len() as usize, values.len()),
                    )
                },
                Err(e) => r == Err::<Vec<T>, MethodFailure>(e),
            },
    {
        match outcome {
            Ok(output) => {
                if output.len() != self.outputs.len() {
                    Err(MethodFailure::WrongOutputCount(self.outputs.len(), output.len()))
                } else {
                    Ok(output)
                }
            },
            Err(e) => Err(e),
        }
    }

    /// Apply the inner function of this method.
    ///
    /// Fails with [`MethodFailure::WrongInputCount`] when `input` does not hold one value per input,
    /// and with [`MethodFailure::WrongOutputCount`] when the function does not return one value per output.
    pub fn apply(&self, input: Vec<T>) -> (r: MethodResult<T>)
        ensures
            input.len() != self.input_vars().len() ==> r == Err::<Vec<T>, MethodFailure>(
                MethodFailure::WrongInputCount(self.input_vars().len() as usize, input.len()),
            ),
            r matches Ok(values) ==> values.len() == self.output_vars().len(),
            input.len() == self.input_vars().len() ==> exists|out: Result<Seq<T>, MethodFailure>|
                #[trigger] self.produces(input@, out) && checked(out, self.output_vars().len(), result_view(r)),
    {
        // Verify that all inputs are defined
        if input.len() != self.inputs.len() {
            return Err(MethodFailure::WrongInputCount(self.inputs.len(), input.len()));
        }
        // Compute output, and verify that all outputs are defined
        let ghost args = input@;
        let outcome = self.apply.call(input);
        let ghost out = result_view(outcome);
        let r = self.check_outputs(outcome);
        assert(self.produces(args, out) && checked(out, self.output_vars().len(), result_view(r)));
        r
    }

    /// Returns a copy of this method, sharing its function.
    pub fn duplicate(&self) -> (r: Self)
        ensures
            r@ == self@,
    {
        Method {
            is_stay: self.is_stay,
            name: self.name.clone(),
            inputs: self.inputs.clone(),
            outputs: self.outputs.clone(),
            apply: self.apply,
        }
    }
}

impl<T: 'static> Vertex for Method<T> {
    open spec fn input_vars(&self) -> Seq<usize> {
        self@.inputs
    }

    open spec fn output_vars(&self) -> Seq<usize> {
        self@.outputs
    }

    open spec fn stays(&self) -> bool {
        self@.is_stay
    }

    /// Get the indices of the inputs to this method
    fn inputs(&self) -> (r: &[usize]) {
        self.inputs.as_slice()
    }

    /// Get the indices of the outputs to this method
    fn outputs(&self) -> (r: &[usize]) {
        self.outputs.as_slice()
    }

    fn is_stay(&self) -> (r: bool) {
        self.is_stay
    }
}

impl<T: 'static> PartialEq for Method<T> {
    fn eq(&self, other: &Self) -> (r: bool) {
        self.is_stay == other.is_stay && self.name == other.name && slices_equal(
            self.inputs.as_slice(),
            other.inputs.as_slice(),
        ) && slices_equal(self.outputs.as_slice(), other.outputs.as_slice())
    }
}

impl<T: 'static> vstd::std_specs::cmp::PartialEqSpecImpl for Method<T> {
    open spec fn obeys_eq_spec() -> bool {
        true
    }

    open spec fn eq_spec(&self, other: &Self) -> bool {
        self@ == other@
    }
}

} // verus!
