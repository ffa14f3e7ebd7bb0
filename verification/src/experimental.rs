//! An experimental planner that counts, for each method of a constraint, the other constraints
//! that reference the variables it writes, and enforces each constraint with a method that
//! writes only variables no other constraint references.

use crate::component::Component;
use crate::constraint::{contains_index, method_views, Constraint, ConstraintView};
use crate::method::Method;
use crate::ranking::other_than;
use crate::simple_planner::{chosen, constraint_views, is_elimination_plan, simple_plan_indices, system_wf, VariableRefCounter};
use crate::vertex::Vertex;
use vstd::prelude::*;

verus! {

broadcast use vstd::seq_lib::group_seq_properties;

/// Two lists seen as one: the first followed by the second.
pub struct MustsAndStays<'a, 'b, T>(&'a [T], &'b [T]);

impl<'a, 'b, T> MustsAndStays<'a, 'b, T> {
    /// The entries of the first list, then those of the second.
    pub closed spec fn spec_entries(&self) -> Seq<T> {
        self.0@ + self.1@
    }

    /// Joins `musts` and `stays`.
    pub fn new(musts: &'a [T], stays: &'b [T]) -> (r: Self)
        ensures
            r.spec_entries() == musts@ + stays@,
    {
        MustsAndStays(musts, stays)
    }

    /// The number of entries of both lists together.
    pub fn len(&self) -> (r: usize)
        requires
            self.spec_entries().len() <= usize::MAX,
        ensures
            r == self.spec_entries().len(),
    {
        self.0.len() + self.1.len()
    }

    /// Entry `index` of the first list, or, past its end, of the second.
    pub fn index(&self, index: usize) -> (r: &T)
        requires
            index < self.spec_entries().len(),
        ensures
            *r == self.spec_entries()[index as int],
    {
        if index < self.0.len() {
            &self.0[index]
        } else {
            &self.1[index - self.0.len()]
        }
    }
}

/// The entries of `s` increase strictly.
pub open spec fn strictly_increasing(s: Seq<usize>) -> bool {
    forall|i: int, j: int| 0 <= i < j < s.len() ==> #[trigger] s[i] < #[trigger] s[j]
}

/// Constraints `c` and `d` of `cs` are different and share a variable.
pub open spec fn shares(cs: Seq<ConstraintView>, c: int, d: int) -> bool {
    c != d && exists|x: usize| #[trigger] cs[c].variables.contains(x) && cs[d].variables.contains(x)
}

/// Method `m` of constraint `c` of `cs` writes a variable that a different constraint `d` references.
pub open spec fn writes_into(cs: Seq<ConstraintView>, c: int, m: int, d: int) -> bool {
    c != d && exists|x: usize| #[trigger] cs[c].methods[m].outputs.contains(x) && cs[d].variables.contains(x)
}

/// The least length of the lists `ws`, or the largest `usize` when there is none.
pub open spec fn least_len(ws: Seq<Seq<usize>>) -> usize
    decreases ws.len(),
{
    if ws.len() == 0 {
        usize::MAX
    } else {
        let rest = least_len(ws.drop_last());
        if ws.last().len() < rest {
            ws.last().len() as usize
        } else {
            rest
        }
    }
}

/// Counts, for a constraint, the other constraints it shares variables with, and for each of its
/// methods, the other constraints that reference the variables the method writes.
#[derive(Clone, Debug)]
pub struct ConstraintRefCounter {
    references: Vec<usize>,
    method_writes: Vec<Vec<usize>>,
    least: usize,
}

/// What a counter holds.
pub struct CounterView {
    /// The other constraints the constraint shares variables with.
    pub references: Seq<usize>,
    /// For each method, the other constraints that reference the variables it writes.
    pub method_writes: Seq<Seq<usize>>,
    /// The least number of such constraints of a method.
    pub least: usize,
}

/// The views of a sequence of lists.
pub open spec fn list_views(ws: Seq<Vec<usize>>) -> Seq<Seq<usize>> {
    ws.map_values(|w: Vec<usize>| w@)
}

impl View for ConstraintRefCounter {
    type V = CounterView;

    closed spec fn view(&self) -> CounterView {
        CounterView { references: self.references@, method_writes: list_views(self.method_writes@), least: self.least }
    }
}

impl ConstraintRefCounter {
    /// A counter without references, methods or least count.
    pub fn new() -> (r: Self)
        ensures
            r@.references == Seq::<usize>::empty(),
            r@.method_writes == Seq::<Seq<usize>>::empty(),
            r@.least == usize::MAX,
    {
        let r = ConstraintRefCounter { references: Vec::new(), method_writes: Vec::new(), least: usize::MAX };
        assert(r@.method_writes =~= Seq::<Seq<usize>>::empty());
        r
    }

    /// Whether some method writes only variables that no other constraint references.
    pub fn has_free_method(&self) -> (r: bool)
        ensures
            r == (self@.least == 0),
    {
        self.least == 0
    }

    /// Adds a reference to constraint `index`.
    pub fn add_reference(&mut self, index: usize)
        ensures
            final(self)@.references == old(self)@.references.push(index),
            final(self)@.method_writes == old(self)@.method_writes,
            final(self)@.least == old(self)@.least,
    {
        self.references.push(index);
    }

    /// Adds constraint `ci` to those that reference what method `mi` writes.
    pub fn add_method_write(&mut self, mi: usize, ci: usize)
        requires
            mi < old(self)@.method_writes.len(),
        ensures
            final(self)@.references == old(self)@.references,
            final(self)@.method_writes == old(self)@.method_writes.update(
                mi as int,
                old(self)@.method_writes[mi as int].push(ci),
            ),
            final(self)@.least == old(self)@.least,
    {
        let ghost before = self.method_writes@;
        self.method_writes[mi].push(ci);
        assert(list_views(self.method_writes@) =~= list_views(before).update(mi as int, list_views(before)[mi as int].push(ci)));
    }

    /// Adds a method that writes nothing others reference yet.
    fn add_method(&mut self)
        ensures
            final(self)@.references == old(self)@.references,
            final(self)@.method_writes == old(self)@.method_writes.push(Seq::<usize>::empty()),
            final(self)@.least == old(self)@.least,
    {
        let ghost before = self.method_writes@;
        self.method_writes.push(Vec::new());
        assert(list_views(self.method_writes@) =~= list_views(before).push(Seq::<usize>::empty()));
    }

    /// Removes every reference to constraint `index`, and lowers the least count to the number of
    /// constraints of a method if that is less.
    pub fn remove_reference(&mut self, index: usize)
        ensures
            final(self)@.references == old(self)@.references.filter(other_than(index)),
            final(self)@.method_writes.len() == old(self)@.method_writes.len(),
            forall|m: int|
                0 <= m < old(self)@.method_writes.len() ==> #[trigger] final(self)@.method_writes[m] == old(self)@.method_writes[m].filter(other_than(index)),
            final(self)@.least == if least_len(final(self)@.method_writes) < old(self)@.least {
                least_len(final(self)@.method_writes)
            } else {
                old(self)@.least
            },
    {
        self.references = without(&self.references, index);
        let ghost before = list_views(self.method_writes@);
        let ghost old_least = self.least;
        let n = self.method_writes.len();
        let mut m: usize = 0;
        while m < n
            invariant
                self.references@ == old(self).references@.filter(other_than(index)),
                n == self.method_writes@.len(),
                n == before.len(),
                m <= n,
                forall|j: int| 0 <= j < m ==> #[trigger] list_views(self.method_writes@)[j] == before[j].filter(other_than(index)),
                forall|j: int| m <= j < n ==> #[trigger] list_views(self.method_writes@)[j] == before[j],
                self.least == if least_len(list_views(self.method_writes@).subrange(0, m as int)) < old_least {
                    least_len(list_views(self.method_writes@).subrange(0, m as int))
                } else {
                    old_least
                },
            decreases n - m,
        {
            let ghost mid = list_views(self.method_writes@);
            assert(mid[m as int] == before[m as int]);
            assert(mid[m as int] == self.method_writes@[m as int]@);
            let kept = without(&self.method_writes[m], index);
            let new_len = kept.len();
            self.method_writes.set(m, kept);
            proof {
                let now = list_views(self.method_writes@);
                assert(now =~= mid.update(m as int, before[m as int].filter(other_than(index))));
                assert(now.subrange(0, m + 1).drop_last() =~= mid.subrange(0, m as int));
                assert(now.subrange(0, m + 1).last() == now[m as int]);
            }
            if new_len < self.least {
                self.least = new_len;
            }
            m += 1;
        }
        proof {
            assert(list_views(self.method_writes@).subrange(0, n as int) =~= list_views(self.method_writes@));
        }
    }

    /// A copy of the list of other constraints that the constraint shares variables with.
    fn references_vec(&self) -> (r: Vec<usize>)
        ensures
            r@ == self@.references,
    {
        self.references.clone()
    }

    /// Returns the other constraints that the constraint shares variables with.
    pub fn references(&self) -> (r: &[usize])
        ensures
            r@ == self@.references,
    {
        self.references.as_slice()
    }

    /// Returns, for each method, the other constraints that reference the variables it writes.
    pub fn method_writes(&self) -> (r: &[Vec<usize>])
        ensures
            list_views(r@) == self@.method_writes,
    {
        self.method_writes.as_slice()
    }
}

/// The entries of `v` other than `index`, in order.
fn without(v: &Vec<usize>, index: usize) -> (r: Vec<usize>)
    ensures
        r@ == v@.filter(other_than(index)),
{
    let ghost keep = other_than(index);
    let mut r: Vec<usize> = Vec::new();
    let mut i: usize = 0;
    while i < v.len()
        invariant
            i <= v@.len(),
            keep == other_than(index),
            r@ == v@.subrange(0, i as int).filter(keep),
        decreases v@.len() - i,
    {
        proof {
            reveal_with_fuel(Seq::filter, 1);
            assert(v@.subrange(0, i + 1).drop_last() =~= v@.subrange(0, i as int));
        }
        if v[i] != index {
            r.push(v[i]);
        }
        i += 1;
    }
    assert(v@.subrange(0, v@.len() as int) =~= v@);
    r
}

/// The entries of `v`, each once, in increasing order.
fn sorted_unique(v: &Vec<usize>) -> (r: Vec<usize>)
    ensures
        strictly_increasing(r@),
        forall|x: usize| #[trigger] r@.contains(x) <==> v@.contains(x),
{
    let mut r: Vec<usize> = Vec::new();
    let mut i: usize = 0;
    while i < v.len()
        invariant
            i <= v@.len(),
            strictly_increasing(r@),
            forall|x: usize| #[trigger] r@.contains(x) <==> v@.subrange(0, i as int).contains(x),
        decreases v@.len() - i,
    {
        let x = v[i];
        proof {
            assert(v@.subrange(0, i + 1) =~= v@.subrange(0, i as int).push(x));
        }
        // Find where x belongs
        let mut p: usize = 0;
        while p < r.len() && r[p] < x
            invariant
                p <= r@.len(),
                forall|j: int| 0 <= j < p ==> #[trigger] r@[j] < x,
            decreases r@.len() - p,
        {
            p += 1;
        }
        if p < r.len() && r[p] == x {
            // already there
        } else {
            let ghost before = r@;
            r.insert(p, x);
            proof {
                assert forall|a: int, b: int| 0 <= a < b < r@.len() implies #[trigger] r@[a] < #[trigger] r@[b] by {
                    if b < p {
                        assert(before[a] < before[b]);
                    } else if b == p {
                        assert(before[a] < x);
                    } else if a < p {
                        assert(before[a] < x);
                        assert(before[b - 1] > x || before[b - 1] >= x);
                        if p < before.len() {
                            assert(before[p as int] > x);
                            if b - 1 > p {
                                assert(before[p as int] < before[b - 1]);
                            }
                        }
                    } else if a == p {
                        assert(before[p as int] > x);
                        if b - 1 > p {
                            assert(before[p as int] < before[b - 1]);
                        }
                    } else {
                        assert(before[a - 1] < before[b - 1]);
                    }
                }
                assert forall|y: usize| #[trigger] r@.contains(y) <==> (before.contains(y) || y == x) by {
                    if r@.contains(y) {
                        let k = choose|k: int| 0 <= k < r@.len() && r@[k] == y;
                        if k < p {
                            assert(before[k] == y);
                        } else if k > p {
                            assert(before[k - 1] == y);
                        }
                    }
                    if before.contains(y) {
                        let k = choose|k: int| 0 <= k < before.len() && before[k] == y;
                        if k < p {
                            assert(r@[k] == y);
                        } else {
                            assert(r@[k + 1] == y);
                        }
                    }
                    if y == x {
                        assert(r@[p as int] == x);
                    }
                }
            }
        }
        i += 1;
    }
    assert(v@.subrange(0, v@.len() as int) =~= v@);
    r
}

/// `r` counts, for constraint `c` of `cs`, the other constraints it shares variables with, and
/// for each of its methods the other constraints that reference what the method writes, each in
/// increasing order; its least count is the least of the latter.
pub open spec fn counts(cs: Seq<ConstraintView>, c: int, r: CounterView) -> bool {
    &&& strictly_increasing(r.references)
    &&& forall|d: usize| #[trigger] r.references.contains(d) <==> (d < cs.len() && shares(cs, c, d as int))
    &&& r.method_writes.len() == cs[c].methods.len()
    &&& forall|m: int| 0 <= m < r.method_writes.len() ==> strictly_increasing(#[trigger] r.method_writes[m])
    &&& forall|m: int, d: usize|
        0 <= m < r.method_writes.len() ==> (#[trigger] r.method_writes[m].contains(d) <==> (d < cs.len() && writes_into(
            cs,
            c,
            m,
            d as int,
        )))
    &&& r.least == least_len(r.method_writes)
}

/// Method `m` of constraint `c` writes only variables that no other constraint of `cs` references.
pub open spec fn free_method(cs: Seq<ConstraintView>, c: int, m: int) -> bool {
    &&& 0 <= m < cs[c].methods.len()
    &&& forall|d: int| 0 <= d < cs.len() ==> !#[trigger] writes_into(cs, c, m, d)
}

/// Constraint `c` of `cs` has a free method.
pub open spec fn has_free(cs: Seq<ConstraintView>, c: int) -> bool {
    exists|m: int| #[trigger] free_method(cs, c, m)
}

/// Method `m` is the first of the free methods of constraint `c` with the fewest outputs.
pub open spec fn first_fewest_free(cs: Seq<ConstraintView>, c: int, m: int) -> bool {
    &&& free_method(cs, c, m)
    &&& forall|m2: int|
        #[trigger] free_method(cs, c, m2) ==> cs[c].methods[m2].outputs.len() > cs[c].methods[m].outputs.len() || (
        cs[c].methods[m2].outputs.len() == cs[c].methods[m].outputs.len() && m2 >= m)
}

/// `method` is the first of the free methods of constraint `c` with the fewest outputs.
pub open spec fn chosen_method(cs: Seq<ConstraintView>, c: int, method: crate::method::MethodView) -> bool {
    exists|m: int| #[trigger] first_fewest_free(cs, c, m) && method == cs[c].methods[m]
}

/// The least length of lists is zero exactly when one of them is empty.
proof fn lemma_least_len_zero(ws: Seq<Seq<usize>>)
    ensures
        (least_len(ws) == 0) <==> exists|m: int| 0 <= m < ws.len() && (#[trigger] ws[m]).len() == 0,
        forall|m: int| 0 <= m < ws.len() ==> least_len(ws) <= (#[trigger] ws[m]).len(),
    decreases ws.len(),
{
    if ws.len() > 0 {
        let r = ws.drop_last();
        lemma_least_len_zero(r);
        assert forall|m: int| 0 <= m < r.len() implies #[trigger] r[m] == ws[m] by {}
        assert forall|m: int| 0 <= m < ws.len() implies least_len(ws) <= (#[trigger] ws[m]).len() by {
            if m < r.len() {
                assert(r[m] == ws[m]);
                assert(least_len(r) <= r[m].len());
            } else {
                assert(ws[m] == ws.last());
            }
        }
        if exists|m: int| 0 <= m < ws.len() && (#[trigger] ws[m]).len() == 0 {
            let m = choose|m: int| 0 <= m < ws.len() && (#[trigger] ws[m]).len() == 0;
            if m < r.len() {
                assert(r[m].len() == 0);
            }
        }
        if least_len(ws) == 0 {
            if ws.last().len() == 0 {
                assert(ws[ws.len() - 1].len() == 0);
            } else {
                let m = choose|m: int| 0 <= m < r.len() && (#[trigger] r[m]).len() == 0;
                assert(ws[m].len() == 0);
            }
        }
    }
}

/// Filtering out a value that does not occur keeps a sequence as it is.
proof fn lemma_filter_absent(s: Seq<usize>, x: usize)
    requires
        !s.contains(x),
    ensures
        s.filter(other_than(x)) == s,
    decreases s.len(),
{
    reveal_with_fuel(Seq::filter, 1);
    if s.len() > 0 {
        assert(!s.drop_last().contains(x)) by {
            if s.drop_last().contains(x) {
                let k = choose|k: int| 0 <= k < s.drop_last().len() && s.drop_last()[k] == x;
                assert(s[k] == x);
            }
        }
        lemma_filter_absent(s.drop_last(), x);
        assert(s[s.len() - 1] != x);
        assert(s.filter(other_than(x)) =~= s.drop_last().push(s.last()));
    }
    assert(s.filter(other_than(x)) =~= s);
}

/// A strictly increasing sequence of `n` values below `n` lists them all in order.
proof fn lemma_increasing_full(s: Seq<usize>, n: int)
    requires
        s.len() == n,
        strictly_increasing(s),
        forall|k: int| 0 <= k < s.len() ==> #[trigger] s[k] < n,
    ensures
        forall|k: int| 0 <= k < s.len() ==> #[trigger] s[k] == k,
{
    assert forall|k: int| 0 <= k < s.len() implies #[trigger] s[k] == k by {
        lemma_increasing_bounds(s, n, k);
    }
}

/// Entry `k` of a strictly increasing sequence of `n` values below `n` is at least `k` and at most `k`.
proof fn lemma_increasing_bounds(s: Seq<usize>, n: int, k: int)
    requires
        s.len() == n,
        strictly_increasing(s),
        forall|j: int| 0 <= j < s.len() ==> #[trigger] s[j] < n,
        0 <= k < n,
    ensures
        s[k] >= k,
        s[k] <= k,
    decreases n - k, k,
{
    if k > 0 {
        lemma_increasing_lower(s, k);
    }
    if k < n - 1 {
        lemma_increasing_bounds(s, n, k + 1);
        assert(s[k] < s[k + 1]);
    }
}

/// Entry `k` of a strictly increasing sequence is at least `k`.
proof fn lemma_increasing_lower(s: Seq<usize>, k: int)
    requires
        strictly_increasing(s),
        0 <= k < s.len(),
    ensures
        s[k] >= k,
    decreases k,
{
    if k > 0 {
        lemma_increasing_lower(s, k - 1);
        assert(s[k - 1] < s[k]);
    }
}

/// Appends to `acc` each of `refs` other than `self_ci`.
fn collect_others(refs: &[usize], self_ci: usize, acc: &mut Vec<usize>)
    ensures
        forall|d: usize| #[trigger] final(acc)@.contains(d) <==> (old(acc)@.contains(d) || (refs@.contains(d) && d != self_ci)),
{
    let mut q: usize = 0;
    while q < refs.len()
        invariant
            q <= refs@.len(),
            forall|d: usize| #[trigger] acc@.contains(d) <==> (old(acc)@.contains(d) || (refs@.subrange(0, q as int).contains(d) && d != self_ci)),
        decreases refs@.len() - q,
    {
        let ci = refs[q];
        proof {
            assert(refs@.subrange(0, q + 1) =~= refs@.subrange(0, q as int).push(ci));
        }
        if ci != self_ci {
            acc.push(ci);
        }
        q += 1;
    }
    assert(refs@.subrange(0, refs@.len() as int) =~= refs@);
}

impl ConstraintRefCounter {
    /// For each constraint of the component, counts the other constraints it shares variables
    /// with, and for each of its methods, the other constraints that reference what it writes.
    pub fn count_constraint_refs<T: 'static>(component: &Component<T>) -> (r: Vec<Self>)
        requires
            component.wf(),
        ensures
            r@.len() == component.constraints_view().len(),
            forall|c: int| 0 <= c < r@.len() ==> counts(component.constraints_view(), c, (#[trigger] r@[c])@),
    {
        let n = component.n_variables();
        let constraints = component.constraints();
        let ghost cs = component.constraints_view();
        let variables = VariableRefCounter::count_variable_refs(n, constraints);
        let nc = constraints.len();
        let mut counters: Vec<ConstraintRefCounter> = Vec::new();
        let mut self_ci: usize = 0;
        while self_ci < nc
            invariant
                cs == constraint_views(constraints@),
                system_wf(n as nat, cs),
                nc == cs.len(),
                self_ci <= nc,
                variables@.len() == n,
                forall|v: int, c: usize|
                    0 <= v < n ==> (#[trigger] variables@[v]@.contains(c) <==> (c < nc && cs[c as int].variables.contains(v as usize))),
                counters@.len() == self_ci,
                forall|c: int| 0 <= c < self_ci ==> counts(cs, c, (#[trigger] counters@[c])@),
            decreases nc - self_ci,
        {
            let constraint = &constraints[self_ci];
            assert(cs[self_ci as int] == constraint@);
            let ghost c = self_ci as int;
            // Add total references
            let vars = constraint.variables();
            let mut references: Vec<usize> = Vec::new();
            let mut k: usize = 0;
            while k < vars.len()
                invariant
                    cs == constraint_views(constraints@),
                    system_wf(n as nat, cs),
                    nc == cs.len(),
                    c == self_ci,
                    self_ci < nc,
                    vars@ == cs[c].variables,
                    variables@.len() == n,
                    forall|v: int, cc: usize|
                        0 <= v < n ==> (#[trigger] variables@[v]@.contains(cc) <==> (cc < nc && cs[cc as int].variables.contains(v as usize))),
                    k <= vars@.len(),
                    forall|d: usize| #[trigger] references@.contains(d) <==> (d != self_ci && d < nc && exists|j: int|
                        0 <= j < k && #[trigger] cs[d as int].variables.contains(vars@[j])),
                decreases vars@.len() - k,
            {
                let vi = vars[k];
                assert(cs[c].variables[k as int] < n);
                let ghost before = references@;
                collect_others(variables[vi].referencing_constraints(), self_ci, &mut references);
                proof {
                    assert forall|d: usize| #[trigger] references@.contains(d) <==> (d != self_ci && d < nc && exists|j: int|
                        0 <= j < k + 1 && #[trigger] cs[d as int].variables.contains(vars@[j])) by {
                        if d != self_ci && d < nc && cs[d as int].variables.contains(vars@[k as int]) {
                            assert(variables@[vi as int]@.contains(d));
                        }
                        if references@.contains(d) && !before.contains(d) {
                            assert(variables@[vi as int]@.contains(d));
                            assert(cs[d as int].variables.contains(vars@[k as int]));
                        }
                    }
                }
                k += 1;
            }
            let references = sorted_unique(&references);
            proof {
                assert forall|d: usize| #[trigger] references@.contains(d) <==> (d < cs.len() && shares(cs, c, d as int)) by {
                    if references@.contains(d) {
                        let j = choose|j: int| 0 <= j < vars@.len() && #[trigger] cs[d as int].variables.contains(vars@[j]);
                        assert(cs[c].variables.contains(vars@[j]));
                    }
                    if d < cs.len() && shares(cs, c, d as int) {
                        let x = choose|x: usize| #[trigger] cs[c].variables.contains(x) && cs[d as int].variables.contains(x);
                        let j = choose|j: int| 0 <= j < vars@.len() && vars@[j] == x;
                        assert(cs[d as int].variables.contains(vars@[j]));
                    }
                }
            }

            // Add method writes
            let methods = constraint.methods();
            let mut method_writes: Vec<Vec<usize>> = Vec::new();
            let mut least: usize = usize::MAX;
            let mut mi: usize = 0;
            while mi < methods.len()
                invariant
                    cs == constraint_views(constraints@),
                    system_wf(n as nat, cs),
                    nc == cs.len(),
                    c == self_ci,
                    self_ci < nc,
                    crate::constraint::method_views(methods@) == cs[c].methods,
                    variables@.len() == n,
                    forall|v: int, cc: usize|
                        0 <= v < n ==> (#[trigger] variables@[v]@.contains(cc) <==> (cc < nc && cs[cc as int].variables.contains(v as usize))),
                    mi <= methods@.len(),
                    method_writes@.len() == mi,
                    forall|m: int| 0 <= m < mi ==> strictly_increasing(#[trigger] list_views(method_writes@)[m]),
                    forall|m: int, d: usize|
                        0 <= m < mi ==> (#[trigger] list_views(method_writes@)[m].contains(d) <==> (d < cs.len() && writes_into(
                            cs,
                            c,
                            m,
                            d as int,
                        ))),
                    least == least_len(list_views(method_writes@)),
                decreases methods@.len() - mi,
            {
                let outputs = methods[mi].outputs();
                assert(cs[c].methods[mi as int] == methods@[mi as int]@);
                let mut writes: Vec<usize> = Vec::new();
                let mut k: usize = 0;
                while k < outputs.len()
                    invariant
                        cs == constraint_views(constraints@),
                        system_wf(n as nat, cs),
                        nc == cs.len(),
                        c == self_ci,
                        self_ci < nc,
                        mi < cs[c].methods.len(),
                        outputs@ == cs[c].methods[mi as int].outputs,
                        variables@.len() == n,
                        forall|v: int, cc: usize|
                            0 <= v < n ==> (#[trigger] variables@[v]@.contains(cc) <==> (cc < nc && cs[cc as int].variables.contains(v as usize))),
                        k <= outputs@.len(),
                        forall|d: usize| #[trigger] writes@.contains(d) <==> (d != self_ci && d < nc && exists|j: int|
                            0 <= j < k && #[trigger] cs[d as int].variables.contains(outputs@[j])),
                    decreases outputs@.len() - k,
                {
                    let o = outputs[k];
                    proof {
                        crate::simple_planner::lemma_chosen_indices_below(n as nat, cs, (self_ci, mi), o);
                    }
                    let ghost before = writes@;
                    collect_others(variables[o].referencing_constraints(), self_ci, &mut writes);
                    proof {
                        assert forall|d: usize| #[trigger] writes@.contains(d) <==> (d != self_ci && d < nc && exists|j: int|
                            0 <= j < k + 1 && #[trigger] cs[d as int].variables.contains(outputs@[j])) by {
                            if d != self_ci && d < nc && cs[d as int].variables.contains(outputs@[k as int]) {
                                assert(variables@[o as int]@.contains(d));
                            }
                            if writes@.contains(d) && !before.contains(d) {
                                assert(variables@[o as int]@.contains(d));
                                assert(cs[d as int].variables.contains(outputs@[k as int]));
                            }
                        }
                    }
                    k += 1;
                }
                let writes = sorted_unique(&writes);
                proof {
                    assert forall|d: usize| #[trigger] writes@.contains(d) <==> (d < cs.len() && writes_into(cs, c, mi as int, d as int)) by {
                        if writes@.contains(d) {
                            let j = choose|j: int| 0 <= j < outputs@.len() && #[trigger] cs[d as int].variables.contains(outputs@[j]);
                            assert(cs[c].methods[mi as int].outputs.contains(outputs@[j]));
                        }
                        if d < cs.len() && writes_into(cs, c, mi as int, d as int) {
                            let x = choose|x: usize| #[trigger] cs[c].methods[mi as int].outputs.contains(x) && cs[d as int].variables.contains(x);
                            let j = choose|j: int| 0 <= j < outputs@.len() && outputs@[j] == x;
                            assert(cs[d as int].variables.contains(outputs@[j]));
                        }
                    }
                }
                let new_len = writes.len();
                let ghost before = list_views(method_writes@);
                method_writes.push(writes);
                proof {
                    assert(list_views(method_writes@) =~= before.push(writes@));
                    assert(list_views(method_writes@).drop_last() =~= before);
                }
                if new_len < least {
                    least = new_len;
                }
                mi += 1;
            }
            let counter = ConstraintRefCounter { references, method_writes, least };
            proof {
                assert(counts(cs, c, counter@));
            }
            counters.push(counter);
            self_ci += 1;
        }
        counters
    }
}

/// Enforces each constraint of the component with the first of its methods with the fewest
/// outputs among those that write only variables no other constraint references.
///
/// Returns `None` exactly when some constraint has no such method.
pub fn new_new_simple_planner<T: 'static>(component: &Component<T>) -> (r: Option<Vec<&Method<T>>>)
    requires
        component.wf(),
    ensures
        r is Some <==> forall|c: int| 0 <= c < component.constraints_view().len() ==> #[trigger] has_free(component.constraints_view(), c),
        r matches Some(plan) ==> plan@.len() == component.constraints_view().len() && forall|c: int|
            0 <= c < plan@.len() ==> #[trigger] chosen_method(component.constraints_view(), c, plan@[c]@),
{
    let constraints = component.constraints();
    let ghost cs = component.constraints_view();
    let nc = constraints.len();
    let mut remaining_constraints = nc;
    let mut counters = ConstraintRefCounter::count_constraint_refs(component);
    let ghost initial = counters@;

    let mut interesting_constraints: std::collections::VecDeque<usize> = std::collections::VecDeque::new();
    let mut ci: usize = 0;
    while ci < nc
        invariant
            nc == cs.len(),
            counters@.len() == nc,
            forall|c: int| 0 <= c < nc ==> counts(cs, c, (#[trigger] counters@[c])@),
            ci <= nc,
            strictly_increasing(interesting_constraints@),
            forall|k: int| 0 <= k < interesting_constraints@.len() ==> #[trigger] interesting_constraints@[k] < ci,
            forall|c: usize| c < ci ==> (#[trigger] interesting_constraints@.contains(c) <==> has_free(cs, c as int)),
        decreases nc - ci,
    {
        proof {
            lemma_least_len_zero(counters@[ci as int]@.method_writes);
            if has_free(cs, ci as int) {
                let m = choose|m: int| #[trigger] free_method(cs, ci as int, m);
                assert(counters@[ci as int]@.method_writes[m].len() == 0) by {
                    if counters@[ci as int]@.method_writes[m].len() > 0 {
                        let d = counters@[ci as int]@.method_writes[m][0];
                        assert(counters@[ci as int]@.method_writes[m].contains(d));
                    }
                }
            }
            if counters@[ci as int]@.least == 0 {
                let m = choose|m: int| 0 <= m < counters@[ci as int]@.method_writes.len() && (#[trigger] counters@[ci as int]@.method_writes[m]).len() == 0;
                assert forall|d: int| 0 <= d < cs.len() implies !#[trigger] writes_into(cs, ci as int, m, d) by {
                    if writes_into(cs, ci as int, m, d) {
                        assert(counters@[ci as int]@.method_writes[m].contains(d as usize));
                    }
                }
                assert(free_method(cs, ci as int, m));
            }
        }
        if counters[ci].has_free_method() {
            let ghost before = interesting_constraints@;
            interesting_constraints.push_back(ci);
            proof {
                assert forall|c: usize| c < ci + 1 implies (#[trigger] interesting_constraints@.contains(c) <==> has_free(cs, c as int)) by {
                    if c < ci && before.contains(c) {
                        let k = choose|k: int| 0 <= k < before.len() && before[k] == c;
                        assert(interesting_constraints@[k] == c);
                    }
                    if c == ci {
                        assert(interesting_constraints@[before.len() as int] == c);
                    }
                }
            }
        }
        ci += 1;
    }
    let ghost free_list = interesting_constraints@;
    let ghost n_free = free_list.len();

    let mut plan: Vec<&Method<T>> = Vec::new();
    while remaining_constraints != 0
        invariant
            nc == cs.len(),
            cs == component.constraints_view(),
            cs == constraint_views(constraints@),
            counters@.len() == nc,
            forall|c: int| 0 <= c < nc ==> (#[trigger] counters@[c])@ == initial[c]@,
            initial.len() == nc,
            forall|c: int| 0 <= c < nc ==> counts(cs, c, (#[trigger] initial[c])@),
            strictly_increasing(free_list),
            forall|k: int| 0 <= k < free_list.len() ==> #[trigger] free_list[k] < nc,
            forall|c: usize| c < nc ==> (#[trigger] free_list.contains(c) <==> has_free(cs, c as int)),
            plan@.len() <= free_list.len(),
            interesting_constraints@ == free_list.subrange(plan@.len() as int, free_list.len() as int),
            remaining_constraints + plan@.len() == nc,
            forall|p: int| 0 <= p < plan@.len() ==> #[trigger] chosen_method(cs, free_list[p] as int, plan@[p]@),
        decreases remaining_constraints,
    {
        let ci = match interesting_constraints.pop_front() {
            Some(ci) => ci,
            None => {
                proof {
                    assert(interesting_constraints@.len() == 0);
                    assert(free_list.len() == plan@.len());
                    assert(plan@.len() < nc);
                    if forall|c: int| 0 <= c < cs.len() ==> #[trigger] has_free(cs, c) {
                        assert forall|c: usize| c < nc implies #[trigger] free_list.contains(c) by {
                            assert(has_free(cs, c as int));
                        }
                        lemma_full_list(free_list, nc);
                        assert(false);
                    }
                }
                return None;
            },
        };
        let ghost k = plan@.len() as int;
        assert(ci == free_list[k]);
        assert(free_list.contains(ci));
        proof {
            lemma_least_len_zero(initial[ci as int]@.method_writes);
            let m = choose|m: int| #[trigger] free_method(cs, ci as int, m);
            assert(initial[ci as int]@.method_writes[m].len() == 0) by {
                if initial[ci as int]@.method_writes[m].len() > 0 {
                    let d = initial[ci as int]@.method_writes[m][0];
                    assert(initial[ci as int]@.method_writes[m].contains(d));
                }
            }
        }
        if !counters[ci].has_free_method() {
            assert(false);
            continue;
        }
        let constraint = &constraints[ci];
        assert(cs[ci as int] == constraint@);
        let methods = constraint.methods();
        let method_writes = counters[ci].method_writes();

        // Find the free method with the fewest outputs
        let mut least: Option<usize> = None;
        let mut least_m: Option<usize> = None;
        let mut mi: usize = 0;
        while mi < method_writes.len()
            invariant
                cs == constraint_views(constraints@),
                ci < nc,
                nc == cs.len(),
                counts(cs, ci as int, initial[ci as int]@),
                list_views(method_writes@) == initial[ci as int]@.method_writes,
                crate::constraint::method_views(methods@) == cs[ci as int].methods,
                mi <= method_writes@.len(),
                least is Some <==> least_m is Some,
                least_m matches Some(mm) ==> mm < mi && free_method(cs, ci as int, mm as int) && least.unwrap()
                    == cs[ci as int].methods[mm as int].outputs.len() && forall|m2: int|
                    0 <= m2 < mi && #[trigger] free_method(cs, ci as int, m2) ==> cs[ci as int].methods[m2].outputs.len()
                        > cs[ci as int].methods[mm as int].outputs.len() || (cs[ci as int].methods[m2].outputs.len()
                        == cs[ci as int].methods[mm as int].outputs.len() && m2 >= mm),
                least_m is None ==> forall|m2: int| 0 <= m2 < mi ==> !#[trigger] free_method(cs, ci as int, m2),
            decreases method_writes@.len() - mi,
        {
            let ghost mwv = list_views(method_writes@);
            assert(mwv[mi as int] == method_writes@[mi as int]@);
            let is_free = method_writes[mi].len() == 0;
            proof {
                if is_free {
                    assert forall|d: int| 0 <= d < cs.len() implies !#[trigger] writes_into(cs, ci as int, mi as int, d) by {
                        if writes_into(cs, ci as int, mi as int, d) {
                            assert(mwv[mi as int].contains(d as usize));
                        }
                    }
                    assert(free_method(cs, ci as int, mi as int));
                } else {
                    let d = mwv[mi as int][0];
                    assert(mwv[mi as int].contains(d));
                    assert(writes_into(cs, ci as int, mi as int, d as int));
                    assert(!free_method(cs, ci as int, mi as int));
                }
            }
            if is_free {
                let m = &methods[mi];
                assert(cs[ci as int].methods[mi as int] == methods@[mi as int]@);
                let n_outputs = m.n_outputs();
                let better = match least {
                    None => true,
                    Some(l) => n_outputs < l,
                };
                let ghost old_least_m = least_m;
                if better {
                    least = Some(n_outputs);
                    least_m = Some(mi);
                }
                proof {
                    assert(n_outputs == cs[ci as int].methods[mi as int].outputs.len());
                    assert(free_method(cs, ci as int, mi as int));
                    if let Some(mm) = least_m {
                        assert forall|m2: int|
                            0 <= m2 < mi + 1 && #[trigger] free_method(cs, ci as int, m2) implies cs[ci as int].methods[m2].outputs.len()
                                > cs[ci as int].methods[mm as int].outputs.len() || (cs[ci as int].methods[m2].outputs.len()
                                == cs[ci as int].methods[mm as int].outputs.len() && m2 >= mm) by {
                            if m2 < mi {
                                if let Some(om) = old_least_m {
                                    assert(cs[ci as int].methods[m2].outputs.len() >= cs[ci as int].methods[om as int].outputs.len());
                                }
                            }
                        }
                    }
                }
            }
            mi += 1;
        }

        // If a free method was found, add it to the plan
        match least_m {
            Some(mi) => {
                proof {
                    assert(counters@[ci as int]@ == initial[ci as int]@);
                }
                let references = counters[ci].references_vec();
                proof {
                    assert forall|j: int| 0 <= j < references@.len() implies #[trigger] references@[j] < nc by {
                        assert(initial[ci as int]@.references.contains(references@[j]));
                    }
                }
                let mut q: usize = 0;
                while q < references.len()
                    invariant
                        counters@.len() == nc,
                        forall|c: int| 0 <= c < nc ==> (#[trigger] counters@[c])@ == initial[c]@,
                        initial.len() == nc,
                        nc == cs.len(),
                        forall|c: int| 0 <= c < nc ==> counts(cs, c, (#[trigger] initial[c])@),
                        forall|j: int| 0 <= j < references@.len() ==> #[trigger] references@[j] < nc,
                        q <= references@.len(),
                    decreases references@.len() - q,
                {
                    let other = references[q];
                    proof {
                        let cv = initial[other as int]@;
                        assert(counts(cs, other as int, cv));
                        assert(!cv.references.contains(other)) by {
                            if cv.references.contains(other) {
                                assert(shares(cs, other as int, other as int));
                            }
                        }
                        lemma_filter_absent(cv.references, other);
                        assert forall|m: int| 0 <= m < cv.method_writes.len() implies #[trigger] cv.method_writes[m].filter(other_than(other)) == cv.method_writes[m] by {
                            assert(!cv.method_writes[m].contains(other)) by {
                                if cv.method_writes[m].contains(other) {
                                    assert(writes_into(cs, other as int, m, other as int));
                                }
                            }
                            lemma_filter_absent(cv.method_writes[m], other);
                        }
                        lemma_least_len_zero(cv.method_writes);
                    }
                    let ghost before = counters@[other as int];
                    let ghost all_before = counters@;
                    counters[other].remove_reference(other);
                    proof {
                        let after = counters@[other as int];
                        assert(after@.method_writes =~= before@.method_writes);
                        assert(after@.references == before@.references);
                        assert forall|c: int| 0 <= c < nc implies (#[trigger] counters@[c])@ == initial[c]@ by {
                            if c != other {
                                assert(counters@[c] == all_before[c]);
                            }
                        }
                    }
                    q += 1;
                }
                assert(cs[ci as int].methods[mi as int] == methods@[mi as int]@);
                let ghost old_plan = plan@;
                plan.push(&methods[mi]);
                remaining_constraints -= 1;
                proof {
                    assert(first_fewest_free(cs, ci as int, mi as int));
                    assert forall|j: int| 0 <= j < plan@.len() implies #[trigger] chosen_method(cs, free_list[j] as int, plan@[j]@) by {
                        if j == k {
                            assert(first_fewest_free(cs, free_list[j] as int, mi as int));
                        } else {
                            assert(plan@[j] == old_plan[j]);
                            assert(chosen_method(cs, free_list[j] as int, old_plan[j]@));
                        }
                    }
                }
            },
            None => {
                proof {
                    let m = choose|m: int| #[trigger] free_method(cs, ci as int, m);
                }
                assert(false);
            },
        }
    }
    proof {
        assert(plan@.len() == nc);
        if free_list.len() > nc {
            lemma_increasing_lower(free_list, free_list.len() - 1);
            assert(free_list[free_list.len() - 1] < nc);
        }
        lemma_increasing_full(free_list, nc as int);
        assert forall|c: int| 0 <= c < cs.len() implies #[trigger] has_free(cs, c) by {
            assert(free_list[c] == c);
            assert(free_list.contains(c as usize));
        }
        assert forall|c: int| 0 <= c < plan@.len() implies #[trigger] chosen_method(cs, c, plan@[c]@) by {
            assert(free_list[c] == c);
            assert(chosen_method(cs, free_list[c] as int, plan@[c]@));
        }
    }
    Some(plan)
}

/// A strictly increasing list of indices below `n` that contains each of them has length `n`.
proof fn lemma_full_list(s: Seq<usize>, n: usize)
    requires
        strictly_increasing(s),
        forall|k: int| 0 <= k < s.len() ==> #[trigger] s[k] < n,
        forall|c: usize| c < n ==> #[trigger] s.contains(c),
    ensures
        s.len() >= n,
{
    if s.len() < n {
        // the map from values to positions would squeeze n values into fewer positions
        let pos = |v: int| choose|k: int| 0 <= k < s.len() && s[k] == v;
        assert forall|v: int| 0 <= v < n implies 0 <= #[trigger] pos(v) < s.len() && s[pos(v)] == v by {
            let c = v as usize;
            assert(s.contains(c));
            let k = choose|k: int| 0 <= k < s.len() && s[k] == c;
            assert(s[k] == v);
        }
        lemma_pigeonhole(pos, n as int, s.len() as int);
        let (a, b) = choose|a: int, b: int| 0 <= a < b < n && #[trigger] pos(a) == #[trigger] pos(b);
        assert(s[pos(a)] == a);
        assert(s[pos(b)] == b);
    }
}

/// `n` values cannot be sent to fewer than `n` places without two of them sharing one.
proof fn lemma_pigeonhole(f: spec_fn(int) -> int, n: int, m: int)
    requires
        0 <= m < n,
        forall|v: int| 0 <= v < n ==> 0 <= #[trigger] f(v) < m,
    ensures
        exists|a: int, b: int| 0 <= a < b < n && #[trigger] f(a) == #[trigger] f(b),
    decreases n,
{
    if m == 0 {
        assert(0 <= f(0) < m);
    } else {
        let last = f(n - 1);
        if exists|a: int| 0 <= a < n - 1 && #[trigger] f(a) == last {
            let a = choose|a: int| 0 <= a < n - 1 && #[trigger] f(a) == last;
            assert(f(a) == f(n - 1));
        } else {
            let g = |v: int| if f(v) == m - 1 { last } else { f(v) };
            assert forall|v: int| 0 <= v < n - 1 implies 0 <= #[trigger] g(v) < m - 1 by {
                if f(v) == m - 1 {
                    assert(last != m - 1 || f(v) != last);
                }
            }
            lemma_pigeonhole(g, n - 1, m - 1);
            let (a, b) = choose|a: int, b: int| 0 <= a < b < n - 1 && #[trigger] g(a) == #[trigger] g(b);
            assert(f(a) == f(b));
        }
    }
}

/// Plans the constraints of `constraints`, the required ones followed by the stay constraints, as
/// the simple planner does: returns, in the order they were selected, a method of each constraint
/// forming an elimination plan, whose methods can run in the reverse of that order; `None`
/// exactly when the constraints have no elimination plan.
pub fn musts_and_stays_planner<'a, T: 'static>(
    n_variables: usize,
    constraints: &'a MustsAndStays<'a, 'a, Constraint<T>>,
) -> (r: Option<Vec<&'a Method<T>>>)
    requires
        system_wf(n_variables as nat, constraint_views(constraints.spec_entries())),
        constraints.spec_entries().len() <= usize::MAX,
    ensures
        r is None <==> forall|p: Seq<(usize, usize)>| !#[trigger] is_elimination_plan(constraint_views(constraints.spec_entries()), p),
        r matches Some(plan) ==> exists|p: Seq<(usize, usize)>|
            #[trigger] is_elimination_plan(constraint_views(constraints.spec_entries()), p) && plan@.len() == p.len() && forall|k: int|
                0 <= k < p.len() ==> (#[trigger] plan@[k])@ == chosen(constraint_views(constraints.spec_entries()), p[k]),
{
    let ghost entries = constraints.spec_entries();
    let ghost cs = constraint_views(entries);
    let n = constraints.len();
    let mut all: Vec<Constraint<T>> = Vec::new();
    let mut i: usize = 0;
    while i < n
        invariant
            n == entries.len(),
            entries == constraints.spec_entries(),
            i <= n,
            all@.len() == i,
            forall|c: int| 0 <= c < i ==> (#[trigger] all@[c])@ == entries[c]@,
        decreases n - i,
    {
        all.push(constraints.index(i).duplicate());
        i += 1;
    }
    assert(constraint_views(all@) =~= cs);
    match simple_plan_indices(n_variables, all.as_slice()) {
        None => None,
        Some(p) => {
            let mut plan: Vec<&'a Method<T>> = Vec::new();
            let mut k: usize = 0;
            while k < p.len()
                invariant
                    is_elimination_plan(cs, p@),
                    entries == constraints.spec_entries(),
                    cs == constraint_views(entries),
                    k <= p@.len(),
                    plan@.len() == k,
                    forall|j: int| 0 <= j < k ==> (#[trigger] plan@[j])@ == chosen(cs, p@[j]),
                decreases p@.len() - k,
            {
                let (ci, mi) = p[k];
                assert(ci < cs.len() && mi < cs[ci as int].methods.len());
                let c = constraints.index(ci);
                let ms = c.methods();
                assert(c@ == cs[ci as int]);
                assert(method_views(ms@)[mi as int] == ms@[mi as int]@);
                plan.push(&ms[mi]);
                k += 1;
            }
            Some(plan)
        },
    }
}

} // verus!
