//! The latest (possibly not computed yet) value of a variable, and its state.

use vstd::prelude::*;

verus! {

/// The possible states of a variable's value.
/// It starts off with being pending, and can
/// transition to `State::Ready` when its computation succeeds,
/// or `State::Error` if the computation fails.
#[derive(Clone, Debug, PartialEq)]
pub enum State<E> {
    /// The value is still being computed.
    Pending,
    /// The value was computed successfully.
    Ready,
    /// The computation of the value failed.
    Error(Vec<E>),
}

impl<E> State<E> {
    /// A copy of the state, with the errors cloned.
    pub fn duplicate(&self) -> (r: Self) where E: Clone
        ensures
            (r is Pending) == (*self is Pending),
            (r is Ready) == (*self is Ready),
            *self matches State::Error(es) ==> (r matches State::Error(rs) && rs@.len() == es@.len()),
    {
        match self {
            State::Pending => State::Pending,
            State::Ready => State::Ready,
            State::Error(errors) => State::Error(errors.clone()),
        }
    }
}

impl<E> Default for State<E> {
    fn default() -> (r: Self)
        ensures
            r == State::<E>::Pending,
    {
        State::Pending
    }
}

/// Contains the value of a variable, and the state of its latest computation.
/// While a computation is pending or has failed, the value is the one from before it.
#[derive(Clone, Debug, PartialEq)]
pub struct SharedState<T, E> {
    value: T,
    state: State<E>,
}

impl<T, E> SharedState<T, E> {
    /// The current value.
    pub closed spec fn value_spec(&self) -> T {
        self.value
    }

    /// The current state.
    pub closed spec fn state_spec(&self) -> State<E> {
        self.state
    }

    /// The state that holds `value` as a successfully computed value.
    pub closed spec fn from_value_spec(value: T) -> Self {
        Self { value, state: State::Ready }
    }

    /// A state that holds `value` as a successfully computed value.
    pub fn from_value(value: T) -> (r: Self)
        ensures
            r.value_spec() == value,
            r.state_spec() == State::<E>::Ready,
            r == Self::from_value_spec(value),
    {
        Self { value, state: State::Ready }
    }

    /// Constructs a [`SharedState`] from another one.
    /// This is used as a way of having a fallback in case the new computation fails.
    /// That is, previous provides a default value.
    pub fn from_previous(previous: &SharedState<T, E>) -> (r: Self) where T: Clone
        ensures
            vstd::pervasive::cloned(previous.value_spec(), r.value_spec()),
            r.state_spec() == State::<E>::Pending,
    {
        Self { value: previous.value.clone(), state: State::Pending }
    }

    /// Returns a reference to the current state.
    pub fn get_state(&self) -> (r: &State<E>)
        ensures
            *r == self.state_spec(),
    {
        &self.state
    }

    /// Returns a reference to the current value.
    pub fn current_value(&self) -> (r: &T)
        ensures
            *r == self.value_spec(),
    {
        &self.value
    }

    /// Set the state to [`State::Pending`].
    pub fn set_pending(&mut self)
        ensures
            final(self).value_spec() == old(self).value_spec(),
            final(self).state_spec() == State::<E>::Pending,
    {
        self.state = State::Pending;
    }

    /// Sets the state to a successful value.
    pub fn set_value(&mut self, value: T)
        ensures
            final(self).value_spec() == value,
            final(self).state_spec() == State::<E>::Ready,
    {
        self.value = value;
        self.state = State::Ready;
    }

    /// Set the state to a failed value.
    /// Errors are added to those of a computation that already failed.
    pub fn set_error(&mut self, errors: Vec<E>)
        ensures
            final(self).value_spec() == old(self).value_spec(),
            final(self).state_spec() matches State::Error(all) && all@ == match old(self).state_spec() {
                State::Error(previous) => previous@ + errors@,
                _ => errors@,
            },
    {
        let mut state = State::Pending;
        std::mem::swap(&mut state, &mut self.state);
        self.state = match state {
            State::Error(previous_errors) => {
                let mut previous_errors = previous_errors;
                let mut errors = errors;
                previous_errors.append(&mut errors);
                State::Error(previous_errors)
            },
            _ => State::Error(errors),
        };
    }
}

/// Represents a value that may not be done being computed.
/// Once the value has been computed, it is stored in its shared state.
#[derive(Clone, Debug, PartialEq)]
pub struct VariableActivation<T, E> {
    /// A slot for the data once it arrives.
    pub shared_state: SharedState<T, E>,
}

impl<T, E> VariableActivation<T, E> {
    /// An activation that already holds `value`.
    pub fn from_value(value: T) -> (r: Self)
        ensures
            r.shared_state.value_spec() == value,
            r.shared_state.state_spec() == State::<E>::Ready,
            r == (VariableActivation { shared_state: SharedState::<T, E>::from_value_spec(value) }),
    {
        Self { shared_state: SharedState::from_value(value) }
    }

    /// Returns a reference to the shared state of this variable activation.
    pub fn shared_state(&self) -> (r: &SharedState<T, E>)
        ensures
            *r == self.shared_state,
    {
        &self.shared_state
    }

    /// Returns the value of this activation if it is done,
    /// or the latest one that was produced otherwise.
    pub fn latest_value(&self) -> (r: T) where T: Clone
        ensures
            vstd::pervasive::cloned(self.shared_state.value_spec(), r),
    {
        self.shared_state.current_value().clone()
    }
}

impl<T, E> From<T> for VariableActivation<T, E> {
    fn from(value: T) -> (r: Self) {
        Self::from_value(value)
    }
}

impl<T, E> vstd::std_specs::convert::FromSpecImpl<T> for VariableActivation<T, E> {
    open spec fn obeys_from_spec() -> bool {
        true
    }

    open spec fn from_spec(value: T) -> Self {
        VariableActivation { shared_state: SharedState::from_value_spec(value) }
    }
}

} // verus!
