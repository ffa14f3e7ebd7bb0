//! Types for representing events from the constraint system.

use vstd::prelude::*;

verus! {

/// The value inside a [`Ready`](Event::Ready) event.
///
/// It may either be a new value, or a notification that the value is unchanged.
#[derive(Copy, Clone, Debug, PartialEq, Eq)]
pub enum Ready<'a, T> {
    /// A new value has been produced.
    Changed(&'a T),
    /// No new value has been produced, but previous errors no longer apply and can be cleared.
    Unchanged,
}

/// An event from the constraint system.
#[derive(Clone, Debug, PartialEq, Eq)]
pub enum Event<'a, T, E> {
    /// The value is being computed.
    Pending,
    /// The computation succeeded.
    Ready(Ready<'a, T>),
    /// The computation failed.
    Error(&'a Vec<E>),
}

/// An event from an update of a component, with information about
/// which variable it is for, and which generation the computation is from.
#[derive(Debug)]
pub struct EventWithLocation<'a, T, E> {
    variable: usize,
    generation: usize,
    event: Event<'a, T, E>,
}

impl<'a, T, E> EventWithLocation<'a, T, E> {
    /// The variable the event is for.
    pub closed spec fn variable_spec(&self) -> usize {
        self.variable
    }

    /// The generation the event is from.
    pub closed spec fn generation_spec(&self) -> usize {
        self.generation
    }

    /// The event itself.
    pub closed spec fn event_spec(&self) -> Event<'a, T, E> {
        self.event
    }

    /// Constructs a new [`EventWithLocation`] for the specified variable.
    ///
    /// This includes the generation the computation is from, and what the event is.
    pub fn new(variable: usize, generation: usize, event: Event<'a, T, E>) -> (r: Self)
        ensures
            r.variable_spec() == variable,
            r.generation_spec() == generation,
            r.event_spec() == event,
    {
        Self { variable, generation, event }
    }

    /// Returns the variable the event is for.
    pub fn variable(&self) -> (r: usize)
        ensures
            r == self.variable_spec(),
    {
        self.variable
    }

    /// Returns the generation the event is from.
    pub fn generation(&self) -> (r: usize)
        ensures
            r == self.generation_spec(),
    {
        self.generation
    }

    /// Returns the actual event.
    pub fn event(self) -> (r: Event<'a, T, E>)
        ensures
            r == self.event_spec(),
    {
        self.event
    }
}

} // verus!
