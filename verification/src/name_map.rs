//! A map from names to indices, such as from variable names to variable indices.

use crate::constraint::str_equal;
use vstd::prelude::*;

verus! {

/// A map from names to indices. Each name occurs at most once; entries keep the order
/// in which their names were first inserted.
#[derive(Clone, Debug, PartialEq, Eq, Default)]
pub struct NameMap {
    entries: Vec<(String, usize)>,
}

/// The names and indices of `entries`, as mathematical values.
pub open spec fn entry_views(entries: Seq<(String, usize)>) -> Seq<(Seq<char>, usize)> {
    entries.map_values(|e: (String, usize)| (e.0@, e.1))
}

/// No name occurs twice in `entries`.
pub open spec fn unique_names(entries: Seq<(Seq<char>, usize)>) -> bool {
    forall|i: int, j: int| 0 <= i < entries.len() && 0 <= j < entries.len() && i != j ==> (#[trigger] entries[i]).0 != (#[trigger] entries[j]).0
}

/// The index of `name` in `entries`, if it occurs there.
pub open spec fn lookup(entries: Seq<(Seq<char>, usize)>, name: Seq<char>) -> Option<usize> {
    if exists|i: int| 0 <= i < entries.len() && (#[trigger] entries[i]).0 == name {
        Some(entries[choose|i: int| 0 <= i < entries.len() && (#[trigger] entries[i]).0 == name].1)
    } else {
        None
    }
}

impl View for NameMap {
    type V = Seq<(Seq<char>, usize)>;

    closed spec fn view(&self) -> Seq<(Seq<char>, usize)> {
        entry_views(self.entries@)
    }
}

impl NameMap {
    /// Each name occurs once.
    pub open spec fn wf(&self) -> bool {
        unique_names(self@)
    }

    /// The index that `name` maps to, if any.
    pub open spec fn get_spec(&self, name: Seq<char>) -> Option<usize> {
        lookup(self@, name)
    }

    /// An empty map.
    pub fn new() -> (r: Self)
        ensures
            r@ == Seq::<(Seq<char>, usize)>::empty(),
            r.wf(),
    {
        NameMap { entries: Vec::new() }
    }

    /// The number of names in the map.
    pub fn len(&self) -> (r: usize)
        ensures
            r == self@.len(),
    {
        self.entries.len()
    }

    /// The position of `name` among the entries, if it is there.
    fn position(&self, name: &str) -> (r: Option<usize>)
        ensures
            match r {
                Some(i) => i < self@.len() && self@[i as int].0 == name@,
                None => forall|i: int| 0 <= i < self@.len() ==> (#[trigger] self@[i]).0 != name@,
            },
    {
        let mut i: usize = 0;
        while i < self.entries.len()
            invariant
                i <= self.entries@.len(),
                forall|j: int| 0 <= j < i ==> (#[trigger] self@[j]).0 != name@,
            decreases self.entries@.len() - i,
        {
            if str_equal(self.entries[i].0.as_str(), name) {
                return Some(i);
            }
            i += 1;
        }
        None
    }

    /// Returns the index that `name` maps to, if any.
    pub fn get(&self, name: &str) -> (r: Option<usize>)
        requires
            self.wf(),
        ensures
            r == self.get_spec(name@),
    {
        match self.position(name) {
            Some(i) => {
                proof {
                    let j = choose|j: int| 0 <= j < self@.len() && (#[trigger] self@[j]).0 == name@;
                    assert(i == j);
                }
                Some(self.entries[i].1)
            },
            None => None,
        }
    }

    /// Maps `name` to `index`, replacing the index it mapped to before.
    pub fn insert(&mut self, name: String, index: usize)
        requires
            old(self).wf(),
        ensures
            final(self).wf(),
            forall|n: Seq<char>| #[trigger]
                final(self).get_spec(n) == if n == name@ {
                    Some(index)
                } else {
                    old(self).get_spec(n)
                },
    {
        let ghost old_view = self@;
        match self.position(name.as_str()) {
            Some(i) => {
                let ghost nm = name@;
                self.entries.set(i, (name, index));
                proof {
                    assert(self@ =~= old_view.update(i as int, (nm, index)));
                    assert forall|n: Seq<char>| #[trigger]
                        self.get_spec(n) == if n == nm {
                            Some(index)
                        } else {
                            lookup(old_view, n)
                        } by {
                        lemma_lookup_update(old_view, i as int, nm, index, n);
                    }
                }
            },
            None => {
                let ghost nm = name@;
                self.entries.push((name, index));
                proof {
                    assert(self@ =~= old_view.push((nm, index)));
                    assert forall|n: Seq<char>| #[trigger]
                        self.get_spec(n) == if n == nm {
                            Some(index)
                        } else {
                            lookup(old_view, n)
                        } by {
                        lemma_lookup_push(old_view, nm, index, n);
                    }
                }
            },
        }
    }

    /// The names in the map, in the order they were first inserted.
    pub fn keys(&self) -> (r: Vec<&str>)
        ensures
            r@.len() == self@.len(),
            forall|i: int| 0 <= i < r@.len() ==> (#[trigger] r@[i])@ == self@[i].0,
    {
        let mut keys: Vec<&str> = Vec::new();
        let mut i: usize = 0;
        while i < self.entries.len()
            invariant
                i <= self.entries@.len(),
                keys@.len() == i,
                forall|j: int| 0 <= j < i ==> (#[trigger] keys@[j])@ == self@[j].0,
            decreases self.entries@.len() - i,
        {
            keys.push(self.entries[i].0.as_str());
            i += 1;
        }
        keys
    }

    /// The entries of the map, in the order their names were first inserted.
    pub fn entries(&self) -> (r: &[(String, usize)])
        ensures
            entry_views(r@) == self@,
    {
        self.entries.as_slice()
    }
}

/// Lookup in a map whose entry `i`, holding `name`, gets a new index.
proof fn lemma_lookup_update(m: Seq<(Seq<char>, usize)>, i: int, name: Seq<char>, index: usize, n: Seq<char>)
    requires
        unique_names(m),
        0 <= i < m.len(),
        m[i].0 == name,
    ensures
        unique_names(m.update(i, (name, index))),
        lookup(m.update(i, (name, index)), n) == if n == name {
            Some(index)
        } else {
            lookup(m, n)
        },
{
    let u = m.update(i, (name, index));
    assert forall|a: int, b: int| 0 <= a < u.len() && 0 <= b < u.len() && a != b implies (#[trigger] u[a]).0 != (#[trigger] u[b]).0 by {
        assert(m[a].0 != m[b].0);
    }
    if n == name {
        assert(u[i].0 == n);
        let j = choose|j: int| 0 <= j < u.len() && (#[trigger] u[j]).0 == n;
        assert(j == i);
    } else {
        if exists|j: int| 0 <= j < m.len() && (#[trigger] m[j]).0 == n {
            let j = choose|j: int| 0 <= j < m.len() && (#[trigger] m[j]).0 == n;
            assert(u[j].0 == n);
            let k = choose|k: int| 0 <= k < u.len() && (#[trigger] u[k]).0 == n;
            assert(k != i);
            assert(m[k].0 == n);
            assert(k == j);
        } else {
            assert forall|j: int| 0 <= j < u.len() implies (#[trigger] u[j]).0 != n by {
                if j != i {
                    assert(m[j].0 != n);
                }
            }
        }
    }
}

/// Lookup in a map that gets a new name at the end.
proof fn lemma_lookup_push(m: Seq<(Seq<char>, usize)>, name: Seq<char>, index: usize, n: Seq<char>)
    requires
        unique_names(m),
        forall|i: int| 0 <= i < m.len() ==> (#[trigger] m[i]).0 != name,
    ensures
        unique_names(m.push((name, index))),
        lookup(m.push((name, index)), n) == if n == name {
            Some(index)
        } else {
            lookup(m, n)
        },
{
    let u = m.push((name, index));
    assert forall|a: int, b: int| 0 <= a < u.len() && 0 <= b < u.len() && a != b implies (#[trigger] u[a]).0 != (#[trigger] u[b]).0 by {
        if a < m.len() && b < m.len() {
            assert(m[a].0 != m[b].0);
        } else if a < m.len() {
            assert(m[a].0 != name);
        } else {
            assert(m[b].0 != name);
        }
    }
    if n == name {
        assert(u[m.len() as int].0 == n);
        let j = choose|j: int| 0 <= j < u.len() && (#[trigger] u[j]).0 == n;
        if j < m.len() {
            assert(m[j].0 == n);
        }
    } else {
        if exists|j: int| 0 <= j < m.len() && (#[trigger] m[j]).0 == n {
            let j = choose|j: int| 0 <= j < m.len() && (#[trigger] m[j]).0 == n;
            assert(u[j].0 == n);
            let k = choose|k: int| 0 <= k < u.len() && (#[trigger] u[k]).0 == n;
            assert(k < m.len());
            assert(m[k].0 == n);
            assert(u[k].0 == u[j].0);
        } else {
            assert forall|j: int| 0 <= j < u.len() implies (#[trigger] u[j]).0 != n by {
                if j < m.len() {
                    assert(m[j].0 != n);
                }
            }
        }
    }
}

} // verus!
