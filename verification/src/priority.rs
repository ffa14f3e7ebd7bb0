//! Comparison of variables by their priorities.

use std::cmp::Ordering;
use vstd::prelude::*;
use vstd::std_specs::cmp::{PartialEqSpecImpl, PartialOrdSpecImpl};

verus! {

/// A variable, compared to others by its entry in a table of priorities.
#[derive(Debug)]
pub struct CompareByPriority<'a> {
    id: usize,
    priorities: &'a [usize],
}

impl<'a> CompareByPriority<'a> {
    /// The variable has an entry in the table.
    #[verifier::type_invariant]
    spec fn in_table(self) -> bool {
        self.id < self.priorities@.len()
    }

    /// The variable.
    pub closed spec fn id_spec(&self) -> usize {
        self.id
    }

    /// The priority of the variable.
    pub closed spec fn priority(&self) -> usize {
        self.priorities@[self.id as int]
    }

    /// Variable `id`, compared by its entry in `priorities`.
    pub fn new(id: usize, priorities: &'a [usize]) -> (r: Self)
        requires
            id < priorities@.len(),
        ensures
            r.id_spec() == id,
            r.priority() == priorities@[id as int],
    {
        Self { id, priorities }
    }

    /// Returns the variable.
    pub fn id(&self) -> (r: usize)
        ensures
            r == self.id_spec(),
    {
        self.id
    }

    /// Returns the priority of the variable.
    pub fn priority_of(&self) -> (r: usize)
        ensures
            r == self.priority(),
    {
        proof {
            use_type_invariant(self);
        }
        self.priorities[self.id]
    }
}

/// How the priorities `a` and `b` compare.
pub open spec fn compare_priorities(a: usize, b: usize) -> Ordering {
    if a < b {
        Ordering::Less
    } else if a == b {
        Ordering::Equal
    } else {
        Ordering::Greater
    }
}

impl<'a> PartialEq for CompareByPriority<'a> {
    fn eq(&self, other: &Self) -> (r: bool) {
        self.priority_of() == other.priority_of()
    }
}

impl<'a> PartialEqSpecImpl for CompareByPriority<'a> {
    open spec fn obeys_eq_spec() -> bool {
        true
    }

    open spec fn eq_spec(&self, other: &Self) -> bool {
        self.priority() == other.priority()
    }
}

impl<'a> PartialOrd for CompareByPriority<'a> {
    fn partial_cmp(&self, other: &Self) -> (r: Option<Ordering>) {
        let a = self.priority_of();
        let b = other.priority_of();
        if a < b {
            Some(Ordering::Less)
        } else if a == b {
            Some(Ordering::Equal)
        } else {
            Some(Ordering::Greater)
        }
    }
}

impl<'a> PartialOrdSpecImpl for CompareByPriority<'a> {
    open spec fn obeys_partial_cmp_spec() -> bool {
        true
    }

    open spec fn partial_cmp_spec(&self, other: &Self) -> Option<Ordering> {
        Some(compare_priorities(self.priority(), other.priority()))
    }
}

} // verus!
