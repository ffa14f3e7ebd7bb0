//! Solving: running the methods of a plan in order on the values of the variables.

use crate::activation::{SharedState, State, VariableActivation};
use crate::error::{MethodFailure, PlanError, Reason, SolveError};
use crate::event::{Event, EventWithLocation, Ready};
use crate::hierarchical_planner::OwnedEnforcedConstraint;
use crate::method::{checked, result_view, Method, MethodResult};
use crate::variable_information::{lemma_told_twice, told, Status, VariableInfo};
use crate::vertex::{indices_below, Vertex};
use vstd::prelude::*;

verus! {

broadcast use vstd::seq_lib::group_seq_properties;

/// The errors of the inputs whose computation failed, in order.
pub open spec fn failures<T>(inputs: Seq<(T, State<SolveError>)>) -> Seq<SolveError>
    decreases inputs.len(),
{
    if inputs.len() == 0 {
        Seq::empty()
    } else {
        failures(inputs.drop_last()) + match inputs.last().1 {
            State::Error(es) => es@,
            _ => Seq::empty(),
        }
    }
}

/// The status that a variable in state `s` has.
pub open spec fn state_status<E>(s: State<E>) -> Status {
    match s {
        State::Pending => Status::Pending,
        State::Ready => Status::Ready,
        State::Error(_) => Status::Error,
    }
}

/// No input is still being computed.
pub open spec fn none_pending<T>(inputs: Seq<(T, State<SolveError>)>) -> bool {
    forall|k: int| 0 <= k < inputs.len() ==> !((#[trigger] inputs[k]).1 is Pending)
}

/// `e` is an error of the method named `method` of `constraint` in `component`, whose reason is a
/// failure of the method.
pub open spec fn method_failure_at(e: SolveError, component: Seq<char>, constraint: Seq<char>, method: Seq<char>) -> bool {
    &&& e.component() == component
    &&& e.constraint() == constraint
    &&& e.method() == method
    &&& e.reason() is MethodFailure
}

impl<T: Clone + 'static> Method<T> {
    /// Computes the outputs of the method from the values of its inputs, each with the state of
    /// its latest computation.
    ///
    /// Fails with the errors of the inputs whose computation failed, if there are any; otherwise
    /// with a [`MethodFailure::WrongInputCount`] error when the number of inputs with a value is wrong,
    /// and with an error located at this method when its function fails or returns the wrong
    /// number of values.
    pub fn compute(&self, inputs: Vec<(T, State<SolveError>)>, component: &str, constraint: &str) -> (r: Result<
        Vec<T>,
        Vec<SolveError>,
    >)
        requires
            none_pending(inputs@),
        ensures
            failures(inputs@).len() > 0 ==> (r matches Err(es) && es@ == failures(inputs@)),
            failures(inputs@).len() == 0 && inputs@.len() - count_failed(inputs@) != self.input_vars().len() ==> (r matches Err(
                es,
            ) && es@.len() == 1 && method_failure_at(es@[0], component@, constraint@, self.name_view()) && es@[0].reason()
                == Reason::MethodFailure(
                MethodFailure::WrongInputCount(
                    self.input_vars().len() as usize,
                    (inputs@.len() - count_failed(inputs@)) as usize,
                ),
            )),
            failures(inputs@).len() == 0 && inputs@.len() - count_failed(inputs@) == self.input_vars().len() ==> match r {
                Ok(values) => values@.len() == self.output_vars().len(),
                Err(es) => es@.len() == 1 && method_failure_at(es@[0], component@, constraint@, self.name_view()),
            },
            failures(inputs@).len() == 0 && inputs@.len() - count_failed(inputs@) == self.input_vars().len() ==> exists|
                out: Result<Seq<T>, MethodFailure>,
            |
                #[trigger] self.produces(ready_values(inputs@), out) && match r {
                    Ok(values) => checked(out, self.output_vars().len(), Ok(values@)),
                    Err(es) => es@.len() == 1 && (es@[0].reason() matches Reason::MethodFailure(e) && checked(
                        out,
                        self.output_vars().len(),
                        Err(e),
                    )),
                },
    {
        let ghost all = inputs@;
        let mut rest = inputs;
        let mut values: Vec<T> = Vec::new();
        let mut errors: Vec<SolveError> = Vec::new();
        let n = rest.len();
        let mut i: usize = 0;
        // Split ok and erroneous inputs
        while i < n
            invariant
                n == all.len(),
                i <= n,
                rest@ == all.subrange(i as int, n as int),
                none_pending(all),
                errors@ == failures(all.subrange(0, i as int)),
                values@.len() + count_failed(all.subrange(0, i as int)) == i,
                values@ == ready_values(all.subrange(0, i as int)),
            decreases n - i,
        {
            let (value, state) = rest.remove(0);
            proof {
                assert(all.subrange(0, i + 1).drop_last() =~= all.subrange(0, i as int));
                assert(all.subrange(0, i + 1).last() == all[i as int]);
                assert(!(all[i as int].1 is Pending));
            }
            match state {
                State::Ready => values.push(value),
                State::Error(es) => {
                    let mut es = es;
                    errors.append(&mut es);
                },
                State::Pending => {},
            }
            i += 1;
        }
        assert(all.subrange(0, n as int) =~= all);

        // If any errors, propagate and abort.
        if errors.len() > 0 {
            return Err(errors);
        }

        // Check that all inputs are provided, compute the result and check it
        let n_ready = values.len();
        let ghost handed = values@;
        let result = self.apply(values);
        match result {
            Ok(outputs) => Ok(outputs),
            Err(e) => {
                let mut es = Vec::new();
                es.push(SolveError::new(component.to_owned(), constraint.to_owned(), self.name().to_owned(), Reason::MethodFailure(e)));
                assert(n_ready != self.input_vars().len() ==> e == MethodFailure::WrongInputCount(self.input_vars().len() as usize, n_ready));
                Err(es)
            },
        }
    }
}

/// Telling variable `outs[k]` of an event of generation `generation` leading to `status`, after
/// the variables `outs[..k]` were told of such events, leaves the variables `outs[..k + 1]` told.
proof fn lemma_tell_step<T, E>(
    base: Seq<VariableInfo<T, E>>,
    prior: Seq<VariableInfo<T, E>>,
    now: Seq<VariableInfo<T, E>>,
    outs: Seq<usize>,
    k: int,
    generation: usize,
    status: Status,
)
    requires
        0 <= k < outs.len(),
        outs[k] < prior.len(),
        prior.len() == base.len(),
        base.len() <= usize::MAX,
        now == prior.update(outs[k] as int, now[outs[k] as int]),
        told(prior[outs[k] as int], now[outs[k] as int], generation, status),
        forall|j: int| 0 <= j < base.len() && !outs.subrange(0, k).contains(j as usize) ==> #[trigger] prior[j] == base[j],
        forall|j: int|
            0 <= j < base.len() && outs.subrange(0, k).contains(j as usize) ==> told(base[j], #[trigger] prior[j], generation, status),
    ensures
        forall|j: int| 0 <= j < base.len() && !outs.subrange(0, k + 1).contains(j as usize) ==> #[trigger] now[j] == base[j],
        forall|j: int|
            0 <= j < base.len() && outs.subrange(0, k + 1).contains(j as usize) ==> told(base[j], #[trigger] now[j], generation, status),
{
    let o = outs[k];
    assert(outs.subrange(0, k + 1) =~= outs.subrange(0, k).push(o));
    assert forall|j: int| 0 <= j < base.len() && outs.subrange(0, k + 1).contains(j as usize) implies told(
        base[j],
        #[trigger] now[j],
        generation,
        status,
    ) by {
        if j == o {
            if outs.subrange(0, k).contains(j as usize) {
                lemma_told_twice(base[j], prior[j], now[j], generation, status, status);
            }
        } else {
            let sub = outs.subrange(0, k + 1);
            let idx = choose|idx: int| 0 <= idx < sub.len() && sub[idx] == j as usize;
            assert(sub[k] == o);
            assert(idx < k);
            assert(outs.subrange(0, k)[idx] == j as usize);
        }
    }
    assert forall|j: int| 0 <= j < base.len() && !outs.subrange(0, k + 1).contains(j as usize) implies #[trigger] now[j]
        == base[j] by {
        assert(outs.subrange(0, k + 1)[k] == o);
    }
}

/// Tells the listeners of each of `outputs` of the errors of generation `generation`.
fn handle_error<T: Clone + 'static>(
    outputs: &[usize],
    infos: &mut Vec<VariableInfo<T, SolveError>>,
    generation: usize,
    errors: &Vec<SolveError>,
)
    requires
        forall|j: int| 0 <= j < outputs@.len() ==> #[trigger] outputs@[j] < old(infos)@.len(),
    ensures
        final(infos)@.len() == old(infos)@.len(),
        forall|j: int|
            0 <= j < old(infos)@.len() && !outputs@.contains(j as usize) ==> #[trigger] final(infos)@[j] == old(infos)@[j],
        forall|j: int|
            0 <= j < old(infos)@.len() && outputs@.contains(j as usize) ==> told(
                old(infos)@[j],
                #[trigger] final(infos)@[j],
                generation,
                Status::Error,
            ),
{
    let ghost infos0 = infos@;
    let n_infos = infos.len();
    let mut k: usize = 0;
    while k < outputs.len()
        invariant
            k <= outputs@.len(),
            forall|j: int| 0 <= j < outputs@.len() ==> #[trigger] outputs@[j] < infos@.len(),
            infos@.len() == infos0.len(),
            n_infos == infos0.len(),
            forall|j: int| 0 <= j < infos0.len() && !outputs@.contains(j as usize) ==> #[trigger] infos@[j] == infos0[j],
            forall|j: int|
                0 <= j < infos0.len() && !outputs@.subrange(0, k as int).contains(j as usize) ==> #[trigger] infos@[j] == infos0[j],
            forall|j: int|
                0 <= j < infos0.len() && outputs@.subrange(0, k as int).contains(j as usize) ==> told(
                    infos0[j],
                    #[trigger] infos@[j],
                    generation,
                    Status::Error,
                ),
        decreases outputs@.len() - k,
    {
        let o = outputs[k];
        let ghost prior = infos@;
        infos[o].call_callback(EventWithLocation::new(o, generation, Event::Error(errors)));
        proof {
            assert(outputs@.subrange(0, k + 1) =~= outputs@.subrange(0, k as int).push(o));
            assert forall|j: int| 0 <= j < infos0.len() && outputs@.subrange(0, k + 1).contains(j as usize) implies told(
                infos0[j],
                #[trigger] infos@[j],
                generation,
                Status::Error,
            ) by {
                if j == o {
                    if outputs@.subrange(0, k as int).contains(j as usize) {
                        lemma_told_twice(infos0[j], prior[j], infos@[j], generation, Status::Error, Status::Error);
                    }
                } else {
                    let sub = outputs@.subrange(0, k + 1);
                    let idx = choose|idx: int| 0 <= idx < sub.len() && sub[idx] == j as usize;
                    assert(sub[k as int] == o);
                    assert(idx < k);
                    assert(outputs@.subrange(0, k as int)[idx] == j as usize);
                    assert(infos@[j] == prior[j]);
                }
            }
            assert forall|j: int| 0 <= j < infos0.len() && !outputs@.subrange(0, k + 1).contains(j as usize) implies #[trigger] infos@[j]
                == infos0[j] by {
                assert(j != o);
                assert(infos@[j] == prior[j]);
            }
        }
        k += 1;
    }
    assert(outputs@.subrange(0, outputs@.len() as int) =~= outputs@);
}

impl<T: Clone + 'static> Method<T> {
    /// Runs the method on the values of its inputs, each with the state of its latest computation,
    /// and puts the outcome in `shared_states`, one per output: the values the method computed, or
    /// the errors, while the values stay those from before.
    ///
    /// Listeners of the outputs are first told that the outputs are pending, then of the new values
    /// or of the errors.
    pub fn activate(
        &self,
        inputs: Vec<(T, State<SolveError>)>,
        shared_states: Vec<SharedState<T, SolveError>>,
        location: (String, String),
        generation: usize,
        infos: &mut Vec<VariableInfo<T, SolveError>>,
    ) -> (r: Vec<VariableActivation<T, SolveError>>)
        requires
            none_pending(inputs@),
            shared_states@.len() == self.output_vars().len(),
            forall|k: int| 0 <= k < self.output_vars().len() ==> #[trigger] self.output_vars()[k] < old(infos)@.len(),
        ensures
            r@.len() == shared_states@.len(),
            final(infos)@.len() == old(infos)@.len(),
            forall|j: int|
                0 <= j < old(infos)@.len() && !self.output_vars().contains(j as usize) ==> #[trigger] final(infos)@[j]
                    == old(infos)@[j],
            forall|k: int| 0 <= k < r@.len() ==> !((#[trigger] r@[k]).shared_state.state_spec() is Pending),
            ((forall|k: int| 0 <= k < r@.len() ==> (#[trigger] r@[k]).shared_state.state_spec() is Ready) && forall|j: int|
                0 <= j < old(infos)@.len() && self.output_vars().contains(j as usize) ==> told(
                    old(infos)@[j],
                    #[trigger] final(infos)@[j],
                    generation,
                    Status::Ready,
                )) || ((forall|k: int|
                0 <= k < r@.len() ==> (#[trigger] r@[k]).shared_state.state_spec() is Error
                    && r@[k].shared_state.value_spec() == shared_states@[k].value_spec()) && forall|j: int|
                0 <= j < old(infos)@.len() && self.output_vars().contains(j as usize) ==> told(
                    old(infos)@[j],
                    #[trigger] final(infos)@[j],
                    generation,
                    Status::Error,
                )),
            failures(inputs@).len() > 0 ==> forall|k: int|
                0 <= k < r@.len() ==> (#[trigger] r@[k]).shared_state.state_spec() is Error && r@[k].shared_state.value_spec()
                    == shared_states@[k].value_spec() && errors_appended(
                    shared_states@[k].state_spec(),
                    r@[k].shared_state.state_spec(),
                    failures(inputs@),
                ),
            inputs@.len() == self.input_vars().len() && (exists|j: int| 0 <= j < inputs@.len() && (#[trigger] inputs@[j]).1 is Error)
                ==> forall|k: int| 0 <= k < r@.len() ==> (#[trigger] r@[k]).shared_state.state_spec() is Error,
            failures(inputs@).len() == 0 && inputs@.len() - count_failed(inputs@) == self.input_vars().len() ==> exists|
                out: Result<Seq<T>, MethodFailure>,
            |
                #[trigger] self.produces(ready_values(inputs@), out) && outcome_in(out, self.output_vars().len(), shared_states@, r@),
            forall|j: int|
                0 <= j < old(infos)@.len() && self.output_vars().contains(j as usize) ==> #[trigger] pending_first(
                    old(infos)@[j],
                    final(infos)@[j],
                    generation,
                ),
    {
        let (component, constraint) = location;
        let outputs = self.outputs();
        let ghost infos0 = infos@;

        let n_infos = infos.len();

        // Set pending
        let mut k: usize = 0;
        while k < outputs.len()
            invariant
                outputs@ == self.output_vars(),
                k <= outputs@.len(),
                forall|j: int| 0 <= j < outputs@.len() ==> #[trigger] outputs@[j] < infos@.len(),
                infos@.len() == infos0.len(),
                n_infos == infos0.len(),
                forall|j: int| 0 <= j < infos0.len() && !outputs@.contains(j as usize) ==> #[trigger] infos@[j] == infos0[j],
                forall|j: int|
                    0 <= j < infos0.len() && !outputs@.subrange(0, k as int).contains(j as usize) ==> #[trigger] infos@[j]
                        == infos0[j],
                forall|j: int|
                    0 <= j < infos0.len() && outputs@.subrange(0, k as int).contains(j as usize) ==> told(
                        infos0[j],
                        #[trigger] infos@[j],
                        generation,
                        Status::Pending,
                    ),
            decreases outputs@.len() - k,
        {
            let o = outputs[k];
            let ghost prior = infos@;
            infos[o].call_callback(EventWithLocation::new(o, generation, Event::Pending));
            proof {
                lemma_tell_step(infos0, prior, infos@, outputs@, k as int, generation, Status::Pending);
            }
            k += 1;
        }
        assert(outputs@.subrange(0, outputs@.len() as int) =~= outputs@);
        let ghost infos_p = infos@;

        // Compute the result, and put it in the outputs
        let ghost inputs_v = inputs@;
        let outcome = self.compute(inputs, component.as_str(), constraint.as_str());
        let ghost outcome_v = outcome;
        proof {
            if exists|j: int| 0 <= j < inputs_v.len() && (#[trigger] inputs_v[j]).1 is Error {
                let j = choose|j: int| 0 <= j < inputs_v.len() && (#[trigger] inputs_v[j]).1 is Error;
                lemma_count_failed_positive(inputs_v, j);
            }
        }
        let ghost states_v = shared_states@;
        let r = settle_outputs(outcome, shared_states, outputs, generation, infos);
        proof {
            if failures(inputs_v).len() == 0 && inputs_v.len() - count_failed(inputs_v) == self.input_vars().len() {
                let out = choose|out: Result<Seq<T>, MethodFailure>|
                    #[trigger] self.produces(ready_values(inputs_v), out) && match outcome_v {
                        Ok(values) => checked(out, self.output_vars().len(), Ok(values@)),
                        Err(es) => es@.len() == 1 && (es@[0].reason() matches Reason::MethodFailure(e) && checked(
                            out,
                            self.output_vars().len(),
                            Err(e),
                        )),
                    };
                assert(outcome_in(out, self.output_vars().len(), states_v, r@));
            }
        }
        proof {
            if r@.len() > 0 && r@[0].shared_state.state_spec() is Ready {
                assert(outcome_v is Ok);
            }
            assert forall|j: int| 0 <= j < infos0.len() && outputs@.contains(j as usize) implies #[trigger] pending_first(
                infos0[j],
                infos@[j],
                generation,
            ) by {
                assert(told(infos0[j], infos_p[j], generation, Status::Pending));
            }
            assert forall|j: int| 0 <= j < infos0.len() && outputs@.contains(j as usize) implies told(
                infos0[j],
                #[trigger] infos@[j],
                generation,
                if outcome_v is Ok { Status::Ready } else { Status::Error },
            ) by {
                lemma_told_twice(
                    infos0[j],
                    infos_p[j],
                    infos@[j],
                    generation,
                    Status::Pending,
                    if outcome_v is Ok { Status::Ready } else { Status::Error },
                );
            }
        }
        r
    }
}

/// `after` is `before` once told that its variable is pending in generation `generation`, and
/// then, in the same generation, that it is ready or failed.
pub open spec fn pending_first<T, E>(before: VariableInfo<T, E>, after: VariableInfo<T, E>, generation: usize) -> bool {
    exists|mid: VariableInfo<T, E>|
        told(before, mid, generation, Status::Pending) && (told(mid, after, generation, Status::Ready) || told(
            mid,
            after,
            generation,
            Status::Error,
        ))
}

/// Telling a variable of a pending event and then of an outcome, twice in one generation, is
/// telling it of a pending event and then of the second outcome.
pub proof fn lemma_pending_first_twice<T, E>(
    a: VariableInfo<T, E>,
    b: VariableInfo<T, E>,
    c: VariableInfo<T, E>,
    generation: usize,
)
    requires
        pending_first(a, b, generation),
        pending_first(b, c, generation),
    ensures
        pending_first(a, c, generation),
{
    let m1 = choose|mid: VariableInfo<T, E>|
        told(a, mid, generation, Status::Pending) && (told(mid, b, generation, Status::Ready) || told(mid, b, generation, Status::Error));
    let m2 = choose|mid: VariableInfo<T, E>|
        told(b, mid, generation, Status::Pending) && (told(mid, c, generation, Status::Ready) || told(mid, c, generation, Status::Error));
    let s1 = if told(m1, b, generation, Status::Ready) { Status::Ready } else { Status::Error };
    lemma_told_twice(a, m1, b, generation, Status::Pending, s1);
    lemma_told_twice(a, b, m2, generation, s1, Status::Pending);
}

/// `r` holds, for each output, what the method's outcome `out` gives, with `n` outputs and the
/// shared states `states` from before: the `k`-th value, ready, when the function gave `n`
/// values; otherwise the value from before, failed.
pub open spec fn outcome_in<T>(
    out: Result<Seq<T>, MethodFailure>,
    n: nat,
    states: Seq<SharedState<T, SolveError>>,
    r: Seq<VariableActivation<T, SolveError>>,
) -> bool {
    match out {
        Ok(values) => if values.len() == n {
            forall|k: int|
                0 <= k < r.len() ==> (#[trigger] r[k]).shared_state.state_spec() == State::<SolveError>::Ready
                    && r[k].shared_state.value_spec() == values[k]
        } else {
            forall|k: int|
                0 <= k < r.len() ==> (#[trigger] r[k]).shared_state.state_spec() is Error && r[k].shared_state.value_spec()
                    == states[k].value_spec()
        },
        Err(_) => forall|k: int|
            0 <= k < r.len() ==> (#[trigger] r[k]).shared_state.state_spec() is Error && r[k].shared_state.value_spec()
                == states[k].value_spec(),
    }
}

/// The errors a state holds.
pub open spec fn errors_of<E>(s: State<E>) -> Seq<E> {
    match s {
        State::Error(es) => es@,
        _ => Seq::empty(),
    }
}

/// `after` holds the errors of `before` followed by copies of `errors`.
pub open spec fn errors_appended<E: Clone>(before: State<E>, after: State<E>, errors: Seq<E>) -> bool {
    &&& after is Error
    &&& errors_of(after).len() == errors_of(before).len() + errors.len()
    &&& forall|i: int| 0 <= i < errors_of(before).len() ==> #[trigger] errors_of(after)[i] == errors_of(before)[i]
    &&& forall|i: int|
        0 <= i < errors.len() ==> vstd::pervasive::cloned(errors[i], #[trigger] errors_of(after)[errors_of(before).len() + i])
}

/// Puts the outcome of a method's computation in the shared states of its outputs, one per output,
/// and tells the listeners of the outputs: output `k` gets the `k`-th computed value and is
/// ready; or, on failure, each output keeps its value and has the errors appended.
pub fn settle_outputs<T: Clone + 'static>(
    outcome: Result<Vec<T>, Vec<SolveError>>,
    shared_states: Vec<SharedState<T, SolveError>>,
    outputs: &[usize],
    generation: usize,
    infos: &mut Vec<VariableInfo<T, SolveError>>,
) -> (r: Vec<VariableActivation<T, SolveError>>)
    requires
        shared_states@.len() == outputs@.len(),
        forall|k: int| 0 <= k < outputs@.len() ==> #[trigger] outputs@[k] < old(infos)@.len(),
        outcome matches Ok(values) ==> values@.len() == outputs@.len(),
    ensures
        r@.len() == shared_states@.len(),
        final(infos)@.len() == old(infos)@.len(),
        forall|j: int|
            0 <= j < old(infos)@.len() && !outputs@.contains(j as usize) ==> #[trigger] final(infos)@[j] == old(infos)@[j],
        outcome matches Ok(values) ==> (forall|k: int|
            0 <= k < r@.len() ==> (#[trigger] r@[k]).shared_state.value_spec() == values@[k]
                && r@[k].shared_state.state_spec() == State::<SolveError>::Ready) && forall|j: int|
            0 <= j < old(infos)@.len() && outputs@.contains(j as usize) ==> told(
                old(infos)@[j],
                #[trigger] final(infos)@[j],
                generation,
                Status::Ready,
            ),
        outcome matches Err(errors) ==> (forall|k: int|
            0 <= k < r@.len() ==> (#[trigger] r@[k]).shared_state.value_spec() == shared_states@[k].value_spec()
                && errors_appended(shared_states@[k].state_spec(), r@[k].shared_state.state_spec(), errors@)) && forall|j: int|
            0 <= j < old(infos)@.len() && outputs@.contains(j as usize) ==> told(
                old(infos)@[j],
                #[trigger] final(infos)@[j],
                generation,
                Status::Error,
            ),
{
    let ghost infos0 = infos@;
    let n_infos = infos.len();
    let mut states = shared_states;
    let ghost before = states@;
    match outcome {
        // The method call was successful: put the values in the slots, and send ready events
        Ok(values) => {
            let ghost vals = values@;
            let mut values = values;
            let mut k: usize = 0;
            while k < outputs.len()
                invariant
                    k <= outputs@.len(),
                    values@ == vals.subrange(k as int, outputs@.len() as int),
                    vals.len() == outputs@.len(),
                    states@.len() == outputs@.len(),
                    forall|j: int| 0 <= j < k ==> (#[trigger] states@[j]).state_spec() == State::<SolveError>::Ready
                        && states@[j].value_spec() == vals[j],
                    forall|j: int| 0 <= j < outputs@.len() ==> #[trigger] outputs@[j] < infos@.len(),
                    infos@.len() == infos0.len(),
                    n_infos == infos0.len(),
                    forall|j: int| 0 <= j < infos0.len() && !outputs@.contains(j as usize) ==> #[trigger] infos@[j] == infos0[j],
                    forall|j: int|
                        0 <= j < infos0.len() && !outputs@.subrange(0, k as int).contains(j as usize) ==> #[trigger] infos@[j]
                            == infos0[j],
                    forall|j: int|
                        0 <= j < infos0.len() && outputs@.subrange(0, k as int).contains(j as usize) ==> told(
                            infos0[j],
                            #[trigger] infos@[j],
                            generation,
                            Status::Ready,
                        ),
                decreases outputs@.len() - k,
            {
                let value = values.remove(0);
                assert(value == vals[k as int]);
                states[k].set_value(value);
                let o = outputs[k];
                let ghost prior = infos@;
                infos[o].call_callback(EventWithLocation::new(o, generation, Event::Ready(Ready::Changed(states[k].current_value()))));
                proof {
                    lemma_tell_step(infos0, prior, infos@, outputs@, k as int, generation, Status::Ready);
                    assert(values@ =~= vals.subrange(k + 1, outputs@.len() as int));
                }
                k += 1;
            }
            assert(outputs@.subrange(0, outputs@.len() as int) =~= outputs@);
        },
        // The method call failed: send error events, and record the errors
        Err(errors) => {
            handle_error(outputs, infos, generation, &errors);
            let mut k: usize = 0;
            while k < states.len()
                invariant
                    k <= states@.len(),
                    states@.len() == before.len(),
                    forall|j: int|
                        0 <= j < k ==> (#[trigger] states@[j]).value_spec() == before[j].value_spec() && errors_appended(
                            before[j].state_spec(),
                            states@[j].state_spec(),
                            errors@,
                        ),
                    forall|j: int| k <= j < states@.len() ==> #[trigger] states@[j] == before[j],
                decreases states@.len() - k,
            {
                let copies = errors.clone();
                states[k].set_error(copies);
                proof {
                    let st = states@[k as int].state_spec();
                    let pr = before[k as int].state_spec();
                    assert forall|i: int| 0 <= i < errors@.len() implies vstd::pervasive::cloned(
                        errors@[i],
                        #[trigger] errors_of(st)[errors_of(pr).len() + i],
                    ) by {
                        assert(errors_of(st)[errors_of(pr).len() + i] == copies@[i]);
                        assert(vstd::pervasive::cloned(errors[i], copies[i]));
                    }
                }
                k += 1;
            }
        },
    }

    // Wrap the shared states in activations
    let ghost final_states = states@;
    let mut activations: Vec<VariableActivation<T, SolveError>> = Vec::new();
    let n = states.len();
    let mut k: usize = 0;
    while k < n
        invariant
            n == final_states.len(),
            k <= n,
            states@ == final_states.subrange(k as int, n as int),
            activations@.len() == k,
            forall|j: int| 0 <= j < k ==> (#[trigger] activations@[j]).shared_state == final_states[j],
        decreases n - k,
    {
        let shared_state = states.remove(0);
        assert(shared_state == final_states[k as int]);
        activations.push(VariableActivation { shared_state });
        k += 1;
    }
    activations
}

/// No entry of `plan` before position `p` writes variable `v`.
pub open spec fn unwritten<M: Vertex>(plan: Seq<M>, p: int, v: int) -> bool {
    forall|m: int| 0 <= m < p ==> !(#[trigger] plan[m].output_vars().contains(v as usize))
}

/// One step of solving: method `m` took the variables from `before` to `after`. Each output got
/// an activation that is not pending, written in order; either all of them are ready, or all of
/// them failed and hold copies of the values from before; all of them failed if an input had
/// failed; and otherwise the method's function was given copies of the values of the inputs, in
/// order, and what it gave decided the outputs ([`step_result`]).
pub open spec fn step_outcome<T: Clone>(
    before: Seq<VariableActivation<T, SolveError>>,
    after: Seq<VariableActivation<T, SolveError>>,
    m: Method<T>,
) -> bool {
    let ins = m.input_vars();
    let outs = m.output_vars();
    exists|acts: Seq<VariableActivation<T, SolveError>>|
        #[trigger] written(before, outs, acts) == after && acts.len() == outs.len() && (forall|k: int|
            0 <= k < acts.len() ==> !((#[trigger] acts[k]).shared_state.state_spec() is Pending)) && ((forall|k: int|
            0 <= k < acts.len() ==> (#[trigger] acts[k]).shared_state.state_spec() is Ready) || (forall|k: int|
            0 <= k < acts.len() ==> (#[trigger] acts[k]).shared_state.state_spec() is Error && vstd::pervasive::cloned(
                before[outs[k] as int].shared_state.value_spec(),
                acts[k].shared_state.value_spec(),
            ))) && ((exists|j: int| 0 <= j < ins.len() && (#[trigger] before[ins[j] as int]).shared_state.state_spec() is Error)
            ==> forall|k: int| 0 <= k < acts.len() ==> (#[trigger] acts[k]).shared_state.state_spec() is Error) && (!(exists|
            j: int,
        | 0 <= j < ins.len() && (#[trigger] before[ins[j] as int]).shared_state.state_spec() is Error) ==> exists|
            args: Seq<T>,
            out: Result<Seq<T>, MethodFailure>,
        |
            #[trigger] m.produces(args, out) && args.len() == ins.len() && (forall|j: int|
                0 <= j < ins.len() ==> vstd::pervasive::cloned(before[ins[j] as int].shared_state.value_spec(), #[trigger] args[j]))
                && step_result(out, outs.len(), acts))
}

/// What the outcome `out` of a method's function with `n` outputs makes of the outputs `acts`:
/// when it gave `n` values, output `k` is ready with the `k`-th; otherwise every output failed.
pub open spec fn step_result<T>(out: Result<Seq<T>, MethodFailure>, n: nat, acts: Seq<VariableActivation<T, SolveError>>) -> bool {
    match out {
        Ok(values) => if values.len() == n {
            forall|k: int|
                0 <= k < acts.len() ==> (#[trigger] acts[k]).shared_state.state_spec() == State::<SolveError>::Ready
                    && acts[k].shared_state.value_spec() == values[k]
        } else {
            forall|k: int| 0 <= k < acts.len() ==> (#[trigger] acts[k]).shared_state.state_spec() is Error
        },
        Err(_) => forall|k: int| 0 <= k < acts.len() ==> (#[trigger] acts[k]).shared_state.state_spec() is Error,
    }
}

/// Inputs that all hold values: none failed, and the function is given all their values.
pub proof fn lemma_all_ready<T>(inputs: Seq<(T, State<SolveError>)>)
    requires
        forall|j: int| 0 <= j < inputs.len() ==> (#[trigger] inputs[j]).1 is Ready,
    ensures
        failures(inputs) == Seq::<SolveError>::empty(),
        count_failed(inputs) == 0,
        ready_values(inputs) == Seq::new(inputs.len(), |j: int| inputs[j].0),
    decreases inputs.len(),
{
    if inputs.len() > 0 {
        let d = inputs.drop_last();
        assert forall|j: int| 0 <= j < d.len() implies (#[trigger] d[j]).1 is Ready by {
            assert(d[j] == inputs[j]);
        }
        lemma_all_ready(d);
        assert(inputs.last() == inputs[inputs.len() - 1]);
        assert(ready_values(inputs) =~= Seq::new(inputs.len(), |j: int| inputs[j].0));
    }
}

/// Running the methods of `plan` in turn took the variables from `before` to `after`, one
/// [`step_outcome`] per method.
pub open spec fn ran<T: Clone>(
    plan: Seq<OwnedEnforcedConstraint<Method<T>>>,
    before: Seq<VariableActivation<T, SolveError>>,
    after: Seq<VariableActivation<T, SolveError>>,
) -> bool {
    exists|snaps: Seq<Seq<VariableActivation<T, SolveError>>>|
        snaps.len() == plan.len() + 1 && snaps[0] == before && #[trigger] snaps[plan.len() as int] == after && forall|p: int|
            0 <= p < plan.len() ==> step_outcome(#[trigger] snaps[p], snaps[p + 1], plan[p].method_spec())
}

/// Runs the methods of the plan in order on the values of the variables of a component, named
/// `component_name`, and tells the listeners in `infos` about the changes. Each method's outputs
/// get new values, or the errors of the computation. Each variable that the plan writes ends
/// ready or failed, and its information is told of that outcome in generation `generation`, after
/// being told that the variable is pending ([`pending_first`]).
pub fn par_solve<T: Clone + 'static>(
    plan: &[OwnedEnforcedConstraint<Method<T>>],
    current_values: &mut Vec<VariableActivation<T, SolveError>>,
    component_name: String,
    generation: usize,
    infos: &mut Vec<VariableInfo<T, SolveError>>,
) -> (r: Result<(), PlanError>)
    requires
        indices_below(plan@, old(current_values)@.len()),
        old(infos)@.len() == old(current_values)@.len(),
        forall|k: int| 0 <= k < old(current_values)@.len() ==> !((#[trigger] old(current_values)@[k]).shared_state.state_spec() is Pending),
    ensures
        r is Ok,
        final(current_values)@.len() == old(current_values)@.len(),
        final(infos)@.len() == old(infos)@.len(),
        forall|k: int| 0 <= k < final(current_values)@.len() ==> !((#[trigger] final(current_values)@[k]).shared_state.state_spec() is Pending),
        forall|v: int|
            0 <= v < old(current_values)@.len() && unwritten(plan@, plan@.len() as int, v)
                ==> #[trigger] final(current_values)@[v] == old(current_values)@[v] && final(infos)@[v] == old(infos)@[v],
        forall|v: int|
            0 <= v < old(current_values)@.len() && !unwritten(plan@, plan@.len() as int, v) ==> told(
                old(infos)@[v],
                #[trigger] final(infos)@[v],
                generation,
                state_status(final(current_values)@[v].shared_state.state_spec()),
            ),
        forall|v: int|
            0 <= v < old(current_values)@.len() && !unwritten(plan@, plan@.len() as int, v) ==> #[trigger] pending_first(
                old(infos)@[v],
                final(infos)@[v],
                generation,
            ),
        ran(plan@, old(current_values)@, final(current_values)@),
{
    let ghost values0 = current_values@;
    let ghost mut snaps: Seq<Seq<VariableActivation<T, SolveError>>> = seq![current_values@];
    let ghost infos0 = infos@;
    let n = current_values.len();
    let n_infos = infos.len();
    let mut p: usize = 0;
    while p < plan.len()
        invariant
            indices_below(plan@, n as nat),
            current_values@.len() == n,
            infos@.len() == n,
            values0.len() == n,
            infos0.len() == n,
            p <= plan@.len(),
            forall|k: int| 0 <= k < n ==> !((#[trigger] current_values@[k]).shared_state.state_spec() is Pending),
            forall|v: int|
                0 <= v < n && unwritten(plan@, p as int, v) ==> #[trigger] current_values@[v] == values0[v] && infos@[v]
                    == infos0[v],
            n_infos == n,
            forall|v: int|
                0 <= v < n && !unwritten(plan@, p as int, v) ==> told(
                    infos0[v],
                    #[trigger] infos@[v],
                    generation,
                    state_status(current_values@[v].shared_state.state_spec()),
                ),
            forall|v: int| 0 <= v < n && !unwritten(plan@, p as int, v) ==> #[trigger] pending_first(infos0[v], infos@[v], generation),
            snaps.len() == p + 1,
            snaps[0] == values0,
            snaps[p as int] == current_values@,
            forall|q: int| 0 <= q < p ==> step_outcome(#[trigger] snaps[q], snaps[q + 1], plan@[q].method_spec()),
        decreases plan@.len() - p,
    {
        let osc = &plan[p];
        let m = osc.method();
        let constraint_name = osc.name();

        // Pick inputs from current values
        let ins = m.inputs();
        let mut inputs: Vec<(T, State<SolveError>)> = Vec::new();
        let mut k: usize = 0;
        while k < ins.len()
            invariant
                p < plan@.len(),
                indices_below(plan@, n as nat),
                ins@ == plan@[p as int].input_vars(),
                current_values@.len() == n,
                k <= ins@.len(),
                inputs@.len() == k,
                forall|j: int| 0 <= j < n ==> !((#[trigger] current_values@[j]).shared_state.state_spec() is Pending),
                forall|j: int| 0 <= j < k ==> !((#[trigger] inputs@[j]).1 is Pending),
                forall|j: int|
                    0 <= j < k ==> ((#[trigger] inputs@[j]).1 is Error) == (current_values@[ins@[j] as int].shared_state.state_spec() is Error),
                forall|j: int|
                    0 <= j < k ==> ((#[trigger] inputs@[j]).1 is Ready) == (current_values@[ins@[j] as int].shared_state.state_spec() is Ready)
                        && vstd::pervasive::cloned(current_values@[ins@[j] as int].shared_state.value_spec(), inputs@[j].0),
            decreases ins@.len() - k,
        {
            let i = ins[k];
            assert(plan@[p as int].input_vars()[k as int] < n);
            let activation = &current_values[i];
            let value = activation.latest_value();
            let state = activation.shared_state().get_state().duplicate();
            inputs.push((value, state));
            k += 1;
        }

        // Keep the old values of the outputs, but set them to pending
        let outs = m.outputs();
        let mut shared_states: Vec<SharedState<T, SolveError>> = Vec::new();
        let mut k: usize = 0;
        while k < outs.len()
            invariant
                p < plan@.len(),
                indices_below(plan@, n as nat),
                outs@ == plan@[p as int].output_vars(),
                current_values@.len() == n,
                k <= outs@.len(),
                shared_states@.len() == k,
                forall|j: int|
                    0 <= j < k ==> vstd::pervasive::cloned(
                        current_values@[outs@[j] as int].shared_state.value_spec(),
                        (#[trigger] shared_states@[j]).value_spec(),
                    ),
            decreases outs@.len() - k,
        {
            let o = outs[k];
            assert(plan@[p as int].output_vars()[k as int] < n);
            shared_states.push(SharedState::from_previous(current_values[o].shared_state()));
            k += 1;
        }

        // Compute the outputs
        let ghost infos_before = infos@;
        let ghost values_before = current_values@;
        proof {
            assert forall|v: int| 0 <= v < n && unwritten(plan@, p as int, v) implies values_before[v] == values0[v]
                && infos_before[v] == infos0[v] by {
                assert(current_values@[v] == values0[v]);
            }
            assert forall|k: int| 0 <= k < m.output_vars().len() implies #[trigger] m.output_vars()[k] < infos@.len() by {
                assert(plan@[p as int].output_vars()[k] < n);
            }
        }
        let ghost inputs_v = inputs@;
        let ghost states_v = shared_states@;
        let outputs = m.activate(
            inputs,
            shared_states,
            (component_name.clone(), constraint_name.to_owned()),
            generation,
            infos,
        );

        // The outcome of the method, the same for each of its outputs
        let ghost st: Status = if forall|j: int| 0 <= j < outputs@.len() ==> (#[trigger] outputs@[j]).shared_state.state_spec() is Ready {
            Status::Ready
        } else {
            Status::Error
        };
        proof {
            assert forall|j: int| 0 <= j < outputs@.len() implies state_status((#[trigger] outputs@[j]).shared_state.state_spec())
                == st by {
                if !(outputs@[j].shared_state.state_spec() is Ready) {
                    assert(outputs@[j].shared_state.state_spec() is Error);
                }
            }
            assert forall|v: int| 0 <= v < n && m.output_vars().contains(v as usize) implies told(
                infos_before[v],
                #[trigger] infos@[v],
                generation,
                st,
            ) by {
                let idx = choose|i: int| 0 <= i < m.output_vars().len() && m.output_vars()[i] == v as usize;
                assert(outputs@.len() == m.output_vars().len());
                if st == Status::Error {
                    let j = choose|j: int| 0 <= j < outputs@.len() && !((#[trigger] outputs@[j]).shared_state.state_spec() is Ready);
                    assert(outputs@[j].shared_state.state_spec() is Error);
                } else {
                    assert(outputs@[idx].shared_state.state_spec() is Ready);
                }
            }
        }
        // Re-insert outputs
        let ghost acts = outputs@;
        let mut k: usize = 0;
        let mut outputs = outputs;
        let n_outs = outs.len();
        while k < n_outs
            invariant
                acts.len() == n_outs,
                outputs@ == acts.subrange(k as int, n_outs as int),
                current_values@ == written(values_before, outs@.subrange(0, k as int), acts.subrange(0, k as int)),
                p < plan@.len(),
                indices_below(plan@, n as nat),
                outs@ == plan@[p as int].output_vars(),
                n_outs == outs@.len(),
                current_values@.len() == n,
                k <= n_outs,
                outputs@.len() == n_outs - k,
                forall|j: int| 0 <= j < outputs@.len() ==> !((#[trigger] outputs@[j]).shared_state.state_spec() is Pending),
                forall|j: int| 0 <= j < n ==> !((#[trigger] current_values@[j]).shared_state.state_spec() is Pending),
                forall|v: int| 0 <= v < n && !outs@.contains(v as usize) ==> #[trigger] current_values@[v] == values_before[v],
                forall|j: int| 0 <= j < outputs@.len() ==> state_status((#[trigger] outputs@[j]).shared_state.state_spec()) == st,
                forall|j: int|
                    0 <= j < k ==> state_status(current_values@[#[trigger] outs@[j] as int].shared_state.state_spec()) == st,
            decreases n_outs - k,
        {
            let ghost rest = outputs@;
            let activation = outputs.remove(0);
            assert(rest[0] == activation);
            let o = outs[k];
            assert(plan@[p as int].output_vars()[k as int] < n);
            current_values.set(o, activation);
            proof {
                assert forall|j: int| 0 <= j < outputs@.len() implies state_status((#[trigger] outputs@[j]).shared_state.state_spec())
                    == st by {
                    assert(outputs@[j] == rest[j + 1]);
                }
                assert(activation == acts[k as int]);
                assert(outs@.subrange(0, k + 1).drop_last() =~= outs@.subrange(0, k as int));
                assert(acts.subrange(0, k + 1).drop_last() =~= acts.subrange(0, k as int));
                assert(outputs@ =~= acts.subrange(k + 1, n_outs as int));
            }
            k += 1;
        }
        proof {
            assert(outs@.subrange(0, n_outs as int) =~= outs@);
            assert(acts.subrange(0, n_outs as int) =~= acts);
            // The step that this method took
            assert(step_outcome(values_before, current_values@, *m)) by {
                assert(acts.len() == outs@.len());
                if !(exists|j: int| 0 <= j < ins@.len() && (#[trigger] values_before[ins@[j] as int]).shared_state.state_spec() is Error) {
                    assert forall|j: int| 0 <= j < inputs_v.len() implies (#[trigger] inputs_v[j]).1 is Ready by {
                        assert(!(values_before[ins@[j] as int].shared_state.state_spec() is Error));
                        assert(!(values_before[ins@[j] as int].shared_state.state_spec() is Pending));
                    }
                    lemma_all_ready(inputs_v);
                    let args = ready_values(inputs_v);
                    let out = choose|out: Result<Seq<T>, MethodFailure>|
                        #[trigger] m.produces(ready_values(inputs_v), out) && outcome_in(out, m.output_vars().len(), states_v, acts);
                    assert forall|j: int| 0 <= j < ins@.len() implies vstd::pervasive::cloned(
                        values_before[ins@[j] as int].shared_state.value_spec(),
                        #[trigger] args[j],
                    ) by {
                        assert(args[j] == inputs_v[j].0);
                    }
                    assert(step_result(out, outs@.len(), acts));
                }
                if exists|j: int| 0 <= j < ins@.len() && (#[trigger] values_before[ins@[j] as int]).shared_state.state_spec() is Error {
                    let j = choose|j: int| 0 <= j < ins@.len() && (#[trigger] values_before[ins@[j] as int]).shared_state.state_spec() is Error;
                    assert(inputs_v[j].1 is Error);
                }
                if !(forall|k: int| 0 <= k < acts.len() ==> (#[trigger] acts[k]).shared_state.state_spec() is Ready) {
                    assert forall|k: int| 0 <= k < acts.len() implies (#[trigger] acts[k]).shared_state.state_spec() is Error
                        && vstd::pervasive::cloned(
                        values_before[outs@[k] as int].shared_state.value_spec(),
                        acts[k].shared_state.value_spec(),
                    ) by {
                        assert(acts[k].shared_state.value_spec() == states_v[k].value_spec());
                    }
                }
                assert(written(values_before, outs@, acts) == current_values@);
            }
            let old_snaps = snaps;
            snaps = snaps.push(current_values@);
            assert forall|q: int| 0 <= q < p + 1 implies step_outcome(#[trigger] snaps[q], snaps[q + 1], plan@[q].method_spec()) by {
                if q < p {
                    assert(snaps[q] == old_snaps[q] && snaps[q + 1] == old_snaps[q + 1]);
                } else {
                    assert(snaps[q] == values_before);
                }
            }
            assert forall|v: int| 0 <= v < n && !unwritten(plan@, p + 1, v) implies told(
                infos0[v],
                #[trigger] infos@[v],
                generation,
                state_status(current_values@[v].shared_state.state_spec()),
            ) by {
                if plan@[p as int].output_vars().contains(v as usize) {
                    let j = choose|j: int| 0 <= j < outs@.len() && outs@[j] == v as usize;
                    assert(state_status(current_values@[outs@[j] as int].shared_state.state_spec()) == st);
                    assert(told(infos_before[v], infos@[v], generation, st));
                    if unwritten(plan@, p as int, v) {
                        assert(infos_before[v] == infos0[v]);
                    } else {
                        lemma_told_twice(
                            infos0[v],
                            infos_before[v],
                            infos@[v],
                            generation,
                            state_status(values_before[v].shared_state.state_spec()),
                            st,
                        );
                    }
                } else {
                    assert(current_values@[v] == values_before[v]);
                    assert(infos@[v] == infos_before[v]);
                    if unwritten(plan@, p as int, v) {
                        assert(unwritten(plan@, p + 1, v));
                    }
                }
            }
            assert forall|v: int| 0 <= v < n && !unwritten(plan@, p + 1, v) implies #[trigger] pending_first(
                infos0[v],
                infos@[v],
                generation,
            ) by {
                if plan@[p as int].output_vars().contains(v as usize) {
                    assert(pending_first(infos_before[v], infos@[v], generation));
                    if unwritten(plan@, p as int, v) {
                        assert(infos_before[v] == infos0[v]);
                    } else {
                        lemma_pending_first_twice(infos0[v], infos_before[v], infos@[v], generation);
                    }
                } else {
                    assert(infos@[v] == infos_before[v]);
                    if unwritten(plan@, p as int, v) {
                        assert(unwritten(plan@, p + 1, v));
                    }
                }
            }
            assert forall|v: int| 0 <= v < n && unwritten(plan@, p + 1, v) implies #[trigger] current_values@[v] == values0[v]
                && infos@[v] == infos0[v] by {
                assert(!plan@[p as int].output_vars().contains(v as usize));
                assert(unwritten(plan@, p as int, v));
                assert(values_before[v] == values0[v] && infos_before[v] == infos0[v]);
            }
        }
        p += 1;
    }
    assert(snaps[plan@.len() as int] == current_values@);
    Ok(())
}

/// An input whose computation failed is counted.
pub proof fn lemma_count_failed_positive<T>(inputs: Seq<(T, State<SolveError>)>, j: int)
    requires
        0 <= j < inputs.len(),
        inputs[j].1 is Error,
    ensures
        count_failed(inputs) > 0,
    decreases inputs.len(),
{
    if j < inputs.len() - 1 {
        lemma_count_failed_positive(inputs.drop_last(), j);
    }
}

/// The values of the inputs whose computation succeeded, in order: what the method's function is given.
pub open spec fn ready_values<T>(inputs: Seq<(T, State<SolveError>)>) -> Seq<T>
    decreases inputs.len(),
{
    if inputs.len() == 0 {
        Seq::empty()
    } else {
        ready_values(inputs.drop_last()) + if inputs.last().1 is Ready {
            seq![inputs.last().0]
        } else {
            Seq::empty()
        }
    }
}

/// The number of inputs whose computation failed.
pub open spec fn count_failed<T>(inputs: Seq<(T, State<SolveError>)>) -> nat
    decreases inputs.len(),
{
    if inputs.len() == 0 {
        0
    } else {
        count_failed(inputs.drop_last()) + if inputs.last().1 is Error { 1nat } else { 0nat }
    }
}

/// `s` with `vals[k]` written at `idx[k]`, for each `k` in turn.
pub open spec fn written<A>(s: Seq<A>, idx: Seq<usize>, vals: Seq<A>) -> Seq<A>
    decreases idx.len(),
{
    if idx.len() == 0 || vals.len() == 0 {
        s
    } else {
        written(s, idx.drop_last(), vals.drop_last()).update(idx.last() as int, vals.last())
    }
}

/// Writing at `idx` leaves the other positions as they were.
pub proof fn lemma_written_elsewhere<A>(s: Seq<A>, idx: Seq<usize>, vals: Seq<A>, v: int)
    requires
        !idx.contains(v as usize),
        0 <= v < s.len(),
        v <= usize::MAX,
        forall|k: int| 0 <= k < idx.len() ==> #[trigger] idx[k] < s.len(),
    ensures
        written(s, idx, vals)[v] == s[v],
        written(s, idx, vals).len() == s.len(),
    decreases idx.len(),
{
    if idx.len() > 0 && vals.len() > 0 {
        assert(!idx.drop_last().contains(v as usize)) by {
            if idx.drop_last().contains(v as usize) {
                let i = choose|i: int| 0 <= i < idx.drop_last().len() && idx.drop_last()[i] == v as usize;
                assert(idx[i] == v as usize);
            }
        }
        lemma_written_elsewhere(s, idx.drop_last(), vals.drop_last(), v);
        assert(idx.last() != v as usize) by {
            assert(idx[idx.len() - 1] == idx.last());
        }
        assert(idx.last() < s.len()) by {
            assert(idx[idx.len() - 1] == idx.last());
        }
    }
}

/// The values after running the methods of `plan` in turn on `values`, method `k` writing
/// `results[k]` to its outputs.
pub open spec fn run_with<T>(values: Seq<T>, plan: Seq<&Method<T>>, results: Seq<Seq<T>>) -> Seq<T>
    decreases plan.len(),
{
    if plan.len() == 0 || results.len() == 0 {
        values
    } else {
        written(run_with(values, plan.drop_last(), results.drop_last()), plan.last().output_vars(), results.last())
    }
}

/// Method `k` of `plan` was handed `args[k]`, copies of the values of its inputs after the methods
/// before it ran, and its function gave `results[k]` for them.
pub open spec fn handed_each<T: Clone>(start: Seq<T>, plan: Seq<&Method<T>>, results: Seq<Seq<T>>, args: Seq<Seq<T>>) -> bool {
    forall|k: int|
        0 <= k < args.len() ==> (#[trigger] args[k]).len() == plan[k].input_vars().len() && plan[k].produces(
            args[k],
            Ok::<Seq<T>, MethodFailure>(results[k]),
        ) && forall|j: int|
            0 <= j < args[k].len() ==> vstd::pervasive::cloned(
                run_with(start, plan.subrange(0, k), results.subrange(0, k))[plan[k].input_vars()[j] as int],
                #[trigger] args[k][j],
            )
}

/// Copies of the values at the indices `idx`, in order: what a method with inputs `idx` is handed.
pub fn gather_values<T: Clone>(values: &Vec<T>, idx: &[usize]) -> (r: Vec<T>)
    requires
        forall|k: int| 0 <= k < idx@.len() ==> #[trigger] idx@[k] < values@.len(),
    ensures
        r@.len() == idx@.len(),
        forall|k: int| 0 <= k < idx@.len() ==> vstd::pervasive::cloned(values@[#[trigger] idx@[k] as int], r@[k]),
{
    let mut r: Vec<T> = Vec::new();
    let mut k: usize = 0;
    while k < idx.len()
        invariant
            k <= idx@.len(),
            r@.len() == k,
            forall|j: int| 0 <= j < idx@.len() ==> #[trigger] idx@[j] < values@.len(),
            forall|j: int| 0 <= j < k ==> vstd::pervasive::cloned(values@[#[trigger] idx@[j] as int], r@[j]),
        decreases idx@.len() - k,
    {
        let v = values[idx[k]].clone();
        r.push(v);
        k += 1;
    }
    r
}

/// Writes `results[k]` at `idx[k]`, for each `k` in turn: what is done with what a method with
/// outputs `idx` returns.
pub fn write_values<T>(values: &mut Vec<T>, idx: &[usize], results: Vec<T>)
    requires
        results@.len() == idx@.len(),
        forall|k: int| 0 <= k < idx@.len() ==> #[trigger] idx@[k] < old(values)@.len(),
    ensures
        final(values)@ == written(old(values)@, idx@, results@),
        final(values)@.len() == old(values)@.len(),
{
    let ghost vals = results@;
    let mut results = results;
    let mut k: usize = 0;
    while k < idx.len()
        invariant
            k <= idx@.len(),
            vals.len() == idx@.len(),
            results@ == vals.subrange(k as int, idx@.len() as int),
            values@.len() == old(values)@.len(),
            forall|j: int| 0 <= j < idx@.len() ==> #[trigger] idx@[j] < old(values)@.len(),
            values@ == written(old(values)@, idx@.subrange(0, k as int), vals.subrange(0, k as int)),
        decreases idx@.len() - k,
    {
        let value = results.remove(0);
        assert(value == vals[k as int]);
        values.set(idx[k], value);
        proof {
            assert(idx@.subrange(0, k + 1).drop_last() =~= idx@.subrange(0, k as int));
            assert(vals.subrange(0, k + 1).drop_last() =~= vals.subrange(0, k as int));
            assert(results@ =~= vals.subrange(k + 1, idx@.len() as int));
        }
        k += 1;
    }
    assert(idx@.subrange(0, idx@.len() as int) =~= idx@);
    assert(vals.subrange(0, idx@.len() as int) =~= vals);
}

/// Runs the methods of `plan` in order on `old_values`, each on the current values of its inputs,
/// writing its outputs. The values change only if every method succeeds; otherwise the first
/// failure is returned and the values are left as they were. Only the functions of the methods
/// fail, so an empty plan succeeds. On success, the values are those of running the methods in
/// turn on copies of the old values, each method's results written to its outputs.
pub fn solve<T: Clone + 'static>(plan: &[&Method<T>], old_values: &mut Vec<T>) -> (r: Result<(), MethodFailure>)
    requires
        forall|k: int, j: int|
            0 <= k < plan@.len() && 0 <= j < plan@[k].input_vars().len() ==> #[trigger] plan@[k].input_vars()[j]
                < old(old_values)@.len(),
        forall|k: int, j: int|
            0 <= k < plan@.len() && 0 <= j < plan@[k].output_vars().len() ==> #[trigger] plan@[k].output_vars()[j]
                < old(old_values)@.len(),
    ensures
        final(old_values)@.len() == old(old_values)@.len(),
        plan@.len() == 0 ==> r is Ok,
        r is Err ==> final(old_values)@ == old(old_values)@,
        r is Ok ==> forall|v: int|
            0 <= v < old(old_values)@.len() && (forall|k: int| 0 <= k < plan@.len() ==> !(#[trigger] plan@[k].output_vars().contains(v as usize)))
                ==> vstd::pervasive::cloned(#[trigger] old(old_values)@[v], final(old_values)@[v]),
        r is Ok ==> exists|start: Seq<T>, results: Seq<Seq<T>>, args: Seq<Seq<T>>|
            #![trigger run_with(start, plan@, results), args.len()]
            start.len() == old(old_values)@.len() && (forall|v: int|
                0 <= v < start.len() ==> vstd::pervasive::cloned(old(old_values)@[v], #[trigger] start[v])) && results.len()
                == plan@.len() && (forall|k: int| 0 <= k < plan@.len() ==> (#[trigger] results[k]).len() == plan@[k].output_vars().len())
                && final(old_values)@ == run_with(start, plan@, results) && args.len() == plan@.len() && handed_each(
                start,
                plan@,
                results,
                args,
            ),
{
    // Store in separate variable temporarily to fail atomically
    let mut current_values = old_values.clone();
    let ghost start = current_values@;
    let ghost mut results: Seq<Seq<T>> = Seq::empty();
    let ghost mut args: Seq<Seq<T>> = Seq::empty();
    let ghost n = current_values@.len();
    let n_values = current_values.len();
    let mut p: usize = 0;
    while p < plan.len()
        invariant
            n == old_values@.len(),
            n == n_values,
            n == current_values@.len(),
            start.len() == n,
            forall|v: int| 0 <= v < n ==> vstd::pervasive::cloned(old_values@[v], #[trigger] start[v]),
            p <= plan@.len(),
            forall|k: int, j: int|
                0 <= k < plan@.len() && 0 <= j < plan@[k].input_vars().len() ==> #[trigger] plan@[k].input_vars()[j] < n,
            forall|k: int, j: int|
                0 <= k < plan@.len() && 0 <= j < plan@[k].output_vars().len() ==> #[trigger] plan@[k].output_vars()[j] < n,
            forall|v: int|
                0 <= v < n && (forall|k: int| 0 <= k < p ==> !(#[trigger] plan@[k].output_vars().contains(v as usize)))
                    ==> vstd::pervasive::cloned(#[trigger] old_values@[v], current_values@[v]),
            results.len() == p,
            forall|k: int| 0 <= k < p ==> (#[trigger] results[k]).len() == plan@[k].output_vars().len(),
            current_values@ == run_with(start, plan@.subrange(0, p as int), results),
            args.len() == p,
            handed_each(start, plan@, results, args),
        decreases plan@.len() - p,
    {
        let m = plan[p];
        // Pick inputs from current values
        let ins = m.inputs();
        let inputs = gather_values(&current_values, ins);
        let ghost handed = inputs@;
        // Compute outputs
        let outputs = match m.apply(inputs) {
            Ok(outputs) => outputs,
            Err(e) => return Err(e),
        };
        // Re-insert outputs
        let outs = m.outputs();
        let ghost before = current_values@;
        let ghost out_vals = outputs@;
        write_values(&mut current_values, outs, outputs);
        proof {
            assert forall|v: int|
                0 <= v < n && (forall|k: int| 0 <= k < p + 1 ==> !(#[trigger] plan@[k].output_vars().contains(v as usize)))
                    implies vstd::pervasive::cloned(#[trigger] old_values@[v], current_values@[v]) by {
                assert(!plan@[p as int].output_vars().contains(v as usize));
                lemma_written_elsewhere(before, outs@, out_vals, v);
            }
            let old_results = results;
            results = results.push(out_vals);
            assert(plan@.subrange(0, p + 1).drop_last() =~= plan@.subrange(0, p as int));
            assert(results.drop_last() =~= old_results);
            assert(plan@.subrange(0, p + 1).last() == m);
            let old_args = args;
            args = args.push(handed);
            assert(m.produces(handed, Ok::<Seq<T>, MethodFailure>(out_vals)));
            assert forall|k: int|
                0 <= k < args.len() implies (#[trigger] args[k]).len() == plan@[k].input_vars().len() && plan@[k].produces(
                args[k],
                Ok::<Seq<T>, MethodFailure>(results[k]),
            ) && forall|j: int|
                0 <= j < args[k].len() ==> vstd::pervasive::cloned(
                    run_with(start, plan@.subrange(0, k), results.subrange(0, k))[plan@[k].input_vars()[j] as int],
                    #[trigger] args[k][j],
                ) by {
                assert(results.subrange(0, k) =~= if k < p { old_results.subrange(0, k) } else { old_results });
                if k < p {
                    assert(args[k] == old_args[k]);
                    assert(results[k] == old_results[k]);
                } else {
                    assert(old_results.subrange(0, p as int) =~= old_results);
                    assert(args[k] == handed);
                    assert(results[k] == out_vals);
                }
            }
        }
        p += 1;
    }
    assert(plan@.subrange(0, plan@.len() as int) =~= plan@);

    // All method calls were ok, we can now update the values
    *old_values = current_values;
    Ok(())
}

} // verus!
