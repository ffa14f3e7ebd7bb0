//! Information about a variable: the generation of its latest value, its status,
//! and the listener that is told about new events for it.

use crate::event::{Event, EventWithLocation};
use vstd::prelude::*;

verus! {

/// Receives the events of one variable.
pub trait EventListener<T, E>: Send + Sync + std::fmt::Debug {
    /// Called with each event that is delivered.
    fn on_event(&self, event: Event<'_, T, E>);
}

/// A listener shared between the places that deliver events to it.
pub type EventCallback<T, E> = &'static dyn EventListener<T, E>;

/// The status of a variable.
#[derive(Copy, Clone, Debug, PartialEq, Eq, Structural)]
pub enum Status {
    /// The variable is waiting for a new value.
    Pending,
    /// The variable has a value.
    Ready,
    /// The computation of the variable's value failed.
    Error,
}

/// The status that an event leads to.
pub open spec fn status_of<T, E>(event: Event<'_, T, E>) -> Status {
    match event {
        Event::Pending => Status::Pending,
        Event::Ready(_) => Status::Ready,
        Event::Error(_) => Status::Error,
    }
}

/// `after` is `before` once told of an event of generation `generation` that leads to `status`:
/// the event is taken unless it is older than the latest generation seen; the listener stays.
pub open spec fn told<T, E>(before: VariableInfo<T, E>, after: VariableInfo<T, E>, generation: usize, status: Status) -> bool {
    &&& generation >= before.generation_spec() ==> after.generation_spec() == generation && after.status_spec() == status
    &&& generation < before.generation_spec() ==> after.generation_spec() == before.generation_spec() && after.status_spec()
        == before.status_spec()
    &&& after.subscribed() == before.subscribed()
}

/// Telling a variable of two events of one generation is telling it of the second.
pub proof fn lemma_told_twice<T, E>(
    a: VariableInfo<T, E>,
    b: VariableInfo<T, E>,
    c: VariableInfo<T, E>,
    generation: usize,
    first: Status,
    second: Status,
)
    requires
        told(a, b, generation, first),
        told(b, c, generation, second),
    ensures
        told(a, c, generation, second),
{
}

/// Information about a variable, and a listener for its events.
#[verifier::reject_recursive_types(T)]
#[verifier::reject_recursive_types(E)]
#[derive(Clone, Debug)]
pub struct VariableInfo<T: 'static, E: 'static> {
    generation: usize,
    status: Status,
    callback: Option<EventCallback<T, E>>,
}

impl<T: 'static, E: 'static> VariableInfo<T, E> {
    /// The generation of the variable's latest value.
    pub closed spec fn generation_spec(&self) -> usize {
        self.generation
    }

    /// The status of the variable.
    pub closed spec fn status_spec(&self) -> Status {
        self.status
    }

    /// Whether a listener is subscribed.
    pub closed spec fn subscribed(&self) -> bool {
        self.callback is Some
    }

    /// Information about a variable with the specified status, at generation 0, with no listener.
    pub fn new(status: Status) -> (r: Self)
        ensures
            r.generation_spec() == 0,
            r.status_spec() == status,
            !r.subscribed(),
    {
        Self { generation: 0, status, callback: None }
    }

    /// Returns the generation of the variable's latest value.
    pub fn generation(&self) -> (r: usize)
        ensures
            r == self.generation_spec(),
    {
        self.generation
    }

    /// Returns the status of the variable.
    pub fn status(&self) -> (r: Status)
        ensures
            r == self.status_spec(),
    {
        self.status
    }

    /// Sets the generation of the variable's latest value.
    pub fn set_generation(&mut self, generation: usize)
        ensures
            final(self).generation_spec() == generation,
            final(self).status_spec() == old(self).status_spec(),
            final(self).subscribed() == old(self).subscribed(),
    {
        self.generation = generation;
    }

    /// Returns the listener, if one is subscribed.
    pub fn callback(&self) -> (r: &Option<EventCallback<T, E>>)
        ensures
            r is Some <==> self.subscribed(),
    {
        &self.callback
    }

    /// Subscribes a listener, replacing any previous one.
    pub fn subscribe(&mut self, callback: EventCallback<T, E>)
        ensures
            final(self).subscribed(),
            final(self).generation_spec() == old(self).generation_spec(),
            final(self).status_spec() == old(self).status_spec(),
    {
        self.callback = Some(callback);
    }

    /// Removes the listener.
    pub fn unsubscribe(&mut self)
        ensures
            !final(self).subscribed(),
            final(self).generation_spec() == old(self).generation_spec(),
            final(self).status_spec() == old(self).status_spec(),
    {
        self.callback = None;
    }

    /// Delivers an event, unless it comes from an older generation than the latest one seen.
    /// A delivered event updates the generation and the status, and is passed to the listener.
    pub fn call_callback(&mut self, ge: EventWithLocation<'_, T, E>)
        ensures
            told(*old(self), *final(self), ge.generation_spec(), status_of(ge.event_spec())),
            ge.generation_spec() >= old(self).generation_spec() ==> final(self).generation_spec() == ge.generation_spec() && final(self).status_spec()
                == status_of(ge.event_spec()),
            ge.generation_spec() < old(self).generation_spec() ==> final(self).generation_spec() == old(self).generation_spec() && final(self).status_spec()
                == old(self).status_spec(),
            final(self).subscribed() == old(self).subscribed(),
    {
        let new_generation = ge.generation();
        let old_generation = self.generation();

        if new_generation < old_generation {
            return;
        }

        self.generation = new_generation;
        let event = ge.event();
        self.status = match &event {
            Event::Pending => Status::Pending,
            Event::Ready(_) => Status::Ready,
            Event::Error(_) => Status::Error,
        };
        match self.callback {
            Some(callback) => callback.on_event(event),
            None => {},
        }
    }
}

impl<T: 'static, E: 'static> PartialEq for VariableInfo<T, E> {
    fn eq(&self, other: &Self) -> (r: bool) {
        self.generation == other.generation && self.status == other.status
    }
}

impl<T: 'static, E: 'static> vstd::std_specs::cmp::PartialEqSpecImpl for VariableInfo<T, E> {
    open spec fn obeys_eq_spec() -> bool {
        true
    }

    open spec fn eq_spec(&self, other: &Self) -> bool {
        self.generation_spec() == other.generation_spec() && self.status_spec() == other.status_spec()
    }
}

/// Delivers the events of a target generation and of newer ones: older events are dropped.
#[verifier::reject_recursive_types(T)]
#[verifier::reject_recursive_types(E)]
#[derive(Clone, Debug)]
pub struct FilteredCallback<T: 'static, E: 'static> {
    target: usize,
    callback: Option<EventCallback<T, E>>,
}

impl<T: 'static, E: 'static> FilteredCallback<T, E> {
    /// The oldest generation whose events are delivered.
    pub closed spec fn target_spec(&self) -> usize {
        self.target
    }

    /// Whether a listener is subscribed.
    pub closed spec fn subscribed(&self) -> bool {
        self.callback is Some
    }

    /// A filter for generation 0, with no listener.
    pub fn new() -> (r: Self)
        ensures
            r.target_spec() == 0,
            !r.subscribed(),
    {
        Self { target: 0, callback: None }
    }

    /// Returns the listener, if one is subscribed.
    pub fn callback(&self) -> (r: &Option<EventCallback<T, E>>)
        ensures
            r is Some <==> self.subscribed(),
    {
        &self.callback
    }

    /// Subscribes a listener, replacing any previous one.
    pub fn subscribe(&mut self, callback: EventCallback<T, E>)
        ensures
            final(self).subscribed(),
            final(self).target_spec() == old(self).target_spec(),
    {
        self.callback = Some(callback);
    }

    /// Removes the listener.
    pub fn unsubscribe(&mut self)
        ensures
            !final(self).subscribed(),
            final(self).target_spec() == old(self).target_spec(),
    {
        self.callback = None;
    }

    /// Sets the oldest generation whose events are delivered.
    pub fn set_target(&mut self, target: usize)
        ensures
            final(self).target_spec() == target,
            final(self).subscribed() == old(self).subscribed(),
    {
        self.target = target;
    }

    /// Passes the event to the listener unless it comes from a generation older than the target;
    /// returns whether it did.
    pub fn call_callback(&self, ge: EventWithLocation<'_, T, E>) -> (delivered: bool)
        ensures
            delivered == (ge.generation_spec() >= self.target_spec() && self.subscribed()),
    {
        let generation = ge.generation();

        if generation < self.target {
            return false;
        }

        match self.callback {
            Some(callback) => {
                callback.on_event(ge.event());
                true
            },
            None => false,
        }
    }
}

impl<T: 'static, E: 'static> Default for FilteredCallback<T, E> {
    fn default() -> (r: Self)
        ensures
            r.target_spec() == 0,
            !r.subscribed(),
    {
        Self::new()
    }
}

impl<T: 'static, E: 'static> PartialEq for FilteredCallback<T, E> {
    fn eq(&self, other: &Self) -> (r: bool) {
        self.target == other.target
    }
}

impl<T: 'static, E: 'static> vstd::std_specs::cmp::PartialEqSpecImpl for FilteredCallback<T, E> {
    open spec fn obeys_eq_spec() -> bool {
        true
    }

    open spec fn eq_spec(&self, other: &Self) -> bool {
        self.target_spec() == other.target_spec()
    }
}

} // verus!
