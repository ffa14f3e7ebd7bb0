//! Callbacks for the three kinds of events of a variable.

use vstd::prelude::*;

verus! {

/// Told that a new value is being computed.
pub trait PendingListener: Send + Sync {
    /// Called when a new value is being computed.
    fn on_pending(&self);
}

/// Told of a new value.
pub trait ReadyListener<T>: Send + Sync {
    /// Called with the new value.
    fn on_ready(&self, value: &T);
}

/// Told of an error.
pub trait ErrorListener<E>: Send + Sync {
    /// Called with the error.
    fn on_error(&self, error: E);
}

/// Callbacks for when a value is pending, ready, or failed; each may be missing.
#[verifier::reject_recursive_types(T)]
#[verifier::reject_recursive_types(E)]
#[derive(Clone)]
pub struct Callback<T: 'static, E: 'static> {
    on_pending: Option<&'static dyn PendingListener>,
    on_ready: Option<&'static dyn ReadyListener<T>>,
    on_error: Option<&'static dyn ErrorListener<E>>,
}

impl<T: 'static, E: 'static> Callback<T, E> {
    /// Whether a callback for pending values is set.
    pub closed spec fn has_pending(&self) -> bool {
        self.on_pending is Some
    }

    /// Whether a callback for new values is set.
    pub closed spec fn has_ready(&self) -> bool {
        self.on_ready is Some
    }

    /// Whether a callback for errors is set.
    pub closed spec fn has_error(&self) -> bool {
        self.on_error is Some
    }

    /// Callbacks with none set.
    pub fn new() -> (r: Self)
        ensures
            !r.has_pending(),
            !r.has_ready(),
            !r.has_error(),
    {
        Callback { on_pending: None, on_ready: None, on_error: None }
    }

    /// Sets the callback for pending values.
    pub fn set_pending(&mut self, pending: &'static dyn PendingListener)
        ensures
            final(self).has_pending(),
            final(self).has_ready() == old(self).has_ready(),
            final(self).has_error() == old(self).has_error(),
    {
        self.on_pending = Some(pending);
    }

    /// Sets the callback for new values.
    pub fn set_ready(&mut self, ready: &'static dyn ReadyListener<T>)
        ensures
            final(self).has_ready(),
            final(self).has_pending() == old(self).has_pending(),
            final(self).has_error() == old(self).has_error(),
    {
        self.on_ready = Some(ready);
    }

    /// Sets the callback for errors.
    pub fn set_error(&mut self, error: &'static dyn ErrorListener<E>)
        ensures
            final(self).has_error(),
            final(self).has_pending() == old(self).has_pending(),
            final(self).has_ready() == old(self).has_ready(),
    {
        self.on_error = Some(error);
    }

    /// Calls the callback for pending values; returns `None` if it is not set.
    pub fn call_pending(&self) -> (r: Option<()>)
        ensures
            r is Some <==> self.has_pending(),
    {
        match self.on_pending {
            Some(on_pending) => {
                on_pending.on_pending();
                Some(())
            },
            None => None,
        }
    }

    /// Calls the callback for new values with `value`; returns `None` if it is not set.
    pub fn call_ready(&self, value: &T) -> (r: Option<()>)
        ensures
            r is Some <==> self.has_ready(),
    {
        match self.on_ready {
            Some(on_ready) => {
                on_ready.on_ready(value);
                Some(())
            },
            None => None,
        }
    }

    /// Calls the callback for errors with `error`; returns `None` if it is not set.
    pub fn call_error(&self, error: E) -> (r: Option<()>)
        ensures
            r is Some <==> self.has_error(),
    {
        match self.on_error {
            Some(on_error) => {
                on_error.on_error(error);
                Some(())
            },
            None => None,
        }
    }
}

impl<T: 'static, E: 'static> Default for Callback<T, E> {
    fn default() -> (r: Self)
        ensures
            !r.has_pending(),
            !r.has_ready(),
            !r.has_error(),
    {
        Self::new()
    }
}

} // verus!
