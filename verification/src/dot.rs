//! Text of a component's constraint graph in the dot language of Graphviz.

use crate::component::Component;
use crate::constraint::{method_views, ConstraintView};
use crate::method::MethodView;
use crate::vertex::Vertex;
use vstd::prelude::*;

verus! {

broadcast use vstd::seq_lib::group_seq_properties;

/// The error type of formatting, declared so that results can carry it.
#[verifier::external_type_specification]
#[verifier::external_body]
pub struct ExFmtError(std::fmt::Error);

/// The name of the first entry of `names` whose index is `i`, if there is one.
pub open spec fn name_of(names: Seq<(Seq<char>, usize)>, i: usize) -> Option<Seq<char>>
    decreases names.len(),
{
    if names.len() == 0 {
        None
    } else if names[0].1 == i {
        Some(names[0].0)
    } else {
        name_of(names.drop_first(), i)
    }
}

/// The name of variable `i`; meaningful where it has one.
pub open spec fn var_name(names: Seq<(Seq<char>, usize)>, i: usize) -> Seq<char> {
    name_of(names, i).unwrap()
}

/// Every variable of every constraint of `cs` has a name.
pub open spec fn variables_named(names: Seq<(Seq<char>, usize)>, cs: Seq<ConstraintView>) -> bool {
    forall|c: int, j: int|
        0 <= c < cs.len() && 0 <= j < cs[c].variables.len() ==> #[trigger] name_of(names, cs[c].variables[j]) is Some
}

/// Every variable that a method of a constraint of `cs` reads or writes has a name.
pub open spec fn method_variables_named(names: Seq<(Seq<char>, usize)>, cs: Seq<ConstraintView>) -> bool {
    &&& forall|c: int, m: int, j: int|
        0 <= c < cs.len() && 0 <= m < cs[c].methods.len() && 0 <= j < cs[c].methods[m].inputs.len()
            ==> #[trigger] name_of(names, cs[c].methods[m].inputs[j]) is Some
    &&& forall|c: int, m: int, j: int|
        0 <= c < cs.len() && 0 <= m < cs[c].methods.len() && 0 <= j < cs[c].methods[m].outputs.len()
            ==> #[trigger] name_of(names, cs[c].methods[m].outputs[j]) is Some
}

/// A line that draws each of the first `n` variables that has a name as a box.
pub open spec fn box_lines(names: Seq<(Seq<char>, usize)>, n: nat) -> Seq<char>
    decreases n,
{
    if n == 0 {
        Seq::empty()
    } else {
        box_lines(names, (n - 1) as nat) + match name_of(names, (n - 1) as usize) {
            Some(name) => "  "@ + name + " [shape=box];\n"@,
            None => Seq::empty(),
        }
    }
}

/// A line for each variable `vars` that joins it to the constraint named `cname`.
pub open spec fn constraint_edges(names: Seq<(Seq<char>, usize)>, cname: Seq<char>, vars: Seq<usize>) -> Seq<char>
    decreases vars.len(),
{
    if vars.len() == 0 {
        Seq::empty()
    } else {
        constraint_edges(names, cname, vars.drop_last()) + "    "@ + cname + " -- "@ + var_name(names, vars.last())
            + ";\n"@
    }
}

/// The lines that join each constraint of `cs` to each of its variables.
pub open spec fn edge_lines(names: Seq<(Seq<char>, usize)>, cs: Seq<ConstraintView>) -> Seq<char>
    decreases cs.len(),
{
    if cs.len() == 0 {
        Seq::empty()
    } else {
        edge_lines(names, cs.drop_last()) + constraint_edges(names, cs.last().name, cs.last().variables)
    }
}

/// The line that joins the constraint named `cname` to variable `x`.
pub open spec fn edge_line(names: Seq<(Seq<char>, usize)>, cname: Seq<char>, x: usize) -> Seq<char> {
    "    "@ + cname + " -- "@ + var_name(names, x) + ";\n"@
}

/// The edges of a constraint to one variable are the line that joins them.
pub proof fn law_constraint_edges_single(names: Seq<(Seq<char>, usize)>, cname: Seq<char>, x: usize)
    ensures
        constraint_edges(names, cname, seq![x]) == edge_line(names, cname, x),
{
    assert(seq![x].drop_last() =~= Seq::<usize>::empty());
    assert(seq![x].last() == x);
    assert(constraint_edges(names, cname, Seq::<usize>::empty()) == Seq::<char>::empty());
    let l = "    "@ + cname + " -- "@ + var_name(names, x) + ";\n"@;
    assert(constraint_edges(names, cname, seq![x]) == constraint_edges(names, cname, Seq::<usize>::empty()) + "    "@ + cname
        + " -- "@ + var_name(names, x) + ";\n"@);
    assert(Seq::<char>::empty() + "    "@ + cname + " -- "@ + var_name(names, x) + ";\n"@ =~= l);
}

/// The edges of a constraint to the variables `u` followed by `v` are its edges to `u` followed
/// by its edges to `v`.
pub proof fn law_constraint_edges_concat(names: Seq<(Seq<char>, usize)>, cname: Seq<char>, u: Seq<usize>, v: Seq<usize>)
    ensures
        constraint_edges(names, cname, u + v) == constraint_edges(names, cname, u) + constraint_edges(names, cname, v),
    decreases v.len(),
{
    if v.len() == 0 {
        assert(u + v =~= u);
        assert(constraint_edges(names, cname, u) + constraint_edges(names, cname, v) =~= constraint_edges(names, cname, u));
    } else {
        law_constraint_edges_concat(names, cname, u, v.drop_last());
        assert((u + v).drop_last() =~= u + v.drop_last());
        assert((u + v).last() == v.last());
        assert(constraint_edges(names, cname, u + v) =~= constraint_edges(names, cname, u) + constraint_edges(names, cname, v));
    }
}

/// The edge text of a single constraint is its edges to each of its variables.
pub proof fn law_edge_lines_single(names: Seq<(Seq<char>, usize)>, c: ConstraintView)
    ensures
        edge_lines(names, seq![c]) == constraint_edges(names, c.name, c.variables),
{
    assert(seq![c].drop_last() =~= Seq::<ConstraintView>::empty());
    assert(seq![c].last() == c);
    assert(edge_lines(names, Seq::<ConstraintView>::empty()) == Seq::<char>::empty());
    assert(edge_lines(names, seq![c]) == edge_lines(names, Seq::<ConstraintView>::empty()) + constraint_edges(names, c.name, c.variables));
    assert(Seq::<char>::empty() + constraint_edges(names, c.name, c.variables) =~= constraint_edges(names, c.name, c.variables));
}

/// The edge text of the constraints `a` followed by `b` is that of `a` followed by that of `b`:
/// every constraint contributes its edges, in order.
pub proof fn law_edge_lines_concat(names: Seq<(Seq<char>, usize)>, a: Seq<ConstraintView>, b: Seq<ConstraintView>)
    ensures
        edge_lines(names, a + b) == edge_lines(names, a) + edge_lines(names, b),
    decreases b.len(),
{
    if b.len() == 0 {
        assert(a + b =~= a);
        assert(edge_lines(names, a) + edge_lines(names, b) =~= edge_lines(names, a));
    } else {
        law_edge_lines_concat(names, a, b.drop_last());
        assert((a + b).drop_last() =~= a + b.drop_last());
        assert((a + b).last() == b.last());
        assert(edge_lines(names, a + b) =~= edge_lines(names, a) + edge_lines(names, b));
    }
}

/// The undirected graph of a component has, for every constraint and every variable of that
/// constraint, the line that joins them.
pub proof fn law_dot_simple_has_every_edge(
    name: Seq<char>,
    names: Seq<(Seq<char>, usize)>,
    n: nat,
    cs: Seq<ConstraintView>,
    c: int,
    j: int,
)
    requires
        0 <= c < cs.len(),
        0 <= j < cs[c].variables.len(),
    ensures
        ({
            let text = dot_simple(name, names, n, cs);
            let line = edge_line(names, cs[c].name, cs[c].variables[j]);
            exists|i: int| 0 <= i && i + line.len() <= text.len() && #[trigger] text.subrange(i, i + line.len()) == line
        }),
{
    let vars = cs[c].variables;
    let line = edge_line(names, cs[c].name, vars[j]);
    lemma_edge_lines_split(names, cs, c);
    lemma_constraint_edges_split(names, cs[c].name, vars, j);
    let e1 = edge_lines(names, cs.subrange(0, c));
    let e3 = edge_lines(names, cs.subrange(c + 1, cs.len() as int));
    let c1 = constraint_edges(names, cs[c].name, vars.subrange(0, j));
    let c3 = constraint_edges(names, cs[c].name, vars.subrange(j + 1, vars.len() as int));
    let head = "strict graph "@ + name + " {\n"@ + box_lines(names, n);
    let x = head + e1 + c1;
    let y = c3 + e3 + "}\n"@;
    let text = dot_simple(name, names, n, cs);
    assert(text == head + (e1 + (c1 + line + c3) + e3) + "}\n"@);
    lemma_middle(head, e1, c1, line, c3, e3, "}\n"@);
    let i = x.len() as int;
    assert(text.subrange(i, i + line.len()) == line);
}

/// In `a + (b + (c + m + d) + e) + f`, the part `m` starts right after `a + b + c`.
proof fn lemma_middle<A>(a: Seq<A>, b: Seq<A>, c: Seq<A>, m: Seq<A>, d: Seq<A>, e: Seq<A>, f: Seq<A>)
    ensures
        ({
            let t = a + (b + (c + m + d) + e) + f;
            let i = (a + b + c).len() as int;
            t.subrange(i, i + m.len()) == m
        }),
{
    let t = a + (b + (c + m + d) + e) + f;
    let i = (a + b + c).len() as int;
    assert(t.subrange(i, i + m.len()) =~= m);
}

/// The edge text of `cs` is that of the constraints before `c`, then the edges of `c`, then those
/// of the constraints after it.
proof fn lemma_edge_lines_split(names: Seq<(Seq<char>, usize)>, cs: Seq<ConstraintView>, c: int)
    requires
        0 <= c < cs.len(),
    ensures
        edge_lines(names, cs) == edge_lines(names, cs.subrange(0, c)) + constraint_edges(names, cs[c].name, cs[c].variables)
            + edge_lines(names, cs.subrange(c + 1, cs.len() as int)),
{
    let a = cs.subrange(0, c);
    let r = cs.subrange(c + 1, cs.len() as int);
    assert(cs =~= a + (seq![cs[c]] + r));
    law_edge_lines_concat(names, a, seq![cs[c]] + r);
    law_edge_lines_concat(names, seq![cs[c]], r);
    law_edge_lines_single(names, cs[c]);
    assert(edge_lines(names, a) + (constraint_edges(names, cs[c].name, cs[c].variables) + edge_lines(names, r)) =~= edge_lines(
        names,
        a,
    ) + constraint_edges(names, cs[c].name, cs[c].variables) + edge_lines(names, r));
}

/// The edges of a constraint to `vars` are its edges to the variables before `j`, then the line
/// to `vars[j]`, then its edges to the variables after it.
proof fn lemma_constraint_edges_split(names: Seq<(Seq<char>, usize)>, cname: Seq<char>, vars: Seq<usize>, j: int)
    requires
        0 <= j < vars.len(),
    ensures
        constraint_edges(names, cname, vars) == constraint_edges(names, cname, vars.subrange(0, j)) + edge_line(names, cname, vars[j])
            + constraint_edges(names, cname, vars.subrange(j + 1, vars.len() as int)),
{
    let a = vars.subrange(0, j);
    let r = vars.subrange(j + 1, vars.len() as int);
    assert(vars =~= a + (seq![vars[j]] + r));
    law_constraint_edges_concat(names, cname, a, seq![vars[j]] + r);
    law_constraint_edges_concat(names, cname, seq![vars[j]], r);
    law_constraint_edges_single(names, cname, vars[j]);
    assert(constraint_edges(names, cname, a) + (edge_line(names, cname, vars[j]) + constraint_edges(names, cname, r)) =~= constraint_edges(
        names,
        cname,
        a,
    ) + edge_line(names, cname, vars[j]) + constraint_edges(names, cname, r));
}

/// The undirected graph of a component named `name` with `n` variables named by `names`
/// and constraints `cs`.
pub open spec fn dot_simple(name: Seq<char>, names: Seq<(Seq<char>, usize)>, n: nat, cs: Seq<ConstraintView>) -> Seq<
    char,
> {
    "strict graph "@ + name + " {\n"@ + box_lines(names, n) + edge_lines(names, cs) + "}\n"@
}

/// The node of method `mname` of constraint `cname`.
pub open spec fn method_node(cname: Seq<char>, mname: Seq<char>) -> Seq<char> {
    cname + "_"@ + mname
}

/// A line for each method of `ms` that draws its node, labelled with its name.
pub open spec fn method_nodes(cname: Seq<char>, ms: Seq<MethodView>) -> Seq<char>
    decreases ms.len(),
{
    if ms.len() == 0 {
        Seq::empty()
    } else {
        method_nodes(cname, ms.drop_last()) + "    "@ + method_node(cname, ms.last().name) + " [label="@
            + ms.last().name + "];\n"@
    }
}

/// The nodes of the methods of `ms`, each followed by a semicolon and a space.
pub open spec fn rank_entries(cname: Seq<char>, ms: Seq<MethodView>) -> Seq<char>
    decreases ms.len(),
{
    if ms.len() == 0 {
        Seq::empty()
    } else {
        rank_entries(cname, ms.drop_last()) + method_node(cname, ms.last().name) + "; "@
    }
}

/// The subgraph that groups the methods of constraint `c`.
pub open spec fn subgraph(c: ConstraintView) -> Seq<char> {
    "  subgraph "@ + c.name + " {\n"@ + "    color=gray;\n"@ + "    style=filled;\n"@ + "    style=rounded;\n"@
        + "    label="@ + c.name + ";\n"@ + method_nodes(c.name, c.methods) + "    { rank = same; "@
        + rank_entries(c.name, c.methods) + "}\n"@ + "  }\n"@
}

/// The subgraphs of the constraints of `cs`.
pub open spec fn subgraphs(cs: Seq<ConstraintView>) -> Seq<char>
    decreases cs.len(),
{
    if cs.len() == 0 {
        Seq::empty()
    } else {
        subgraphs(cs.drop_last()) + subgraph(cs.last())
    }
}

/// A dotted arrow from each variable of `inputs` to the node `node`.
pub open spec fn input_arrows(names: Seq<(Seq<char>, usize)>, node: Seq<char>, inputs: Seq<usize>) -> Seq<char>
    decreases inputs.len(),
{
    if inputs.len() == 0 {
        Seq::empty()
    } else {
        input_arrows(names, node, inputs.drop_last()) + "  "@ + var_name(names, inputs.last()) + " -> "@ + node
            + " [style=dotted];\n"@
    }
}

/// An arrow from the node `node` to each variable of `outputs`.
pub open spec fn output_arrows(names: Seq<(Seq<char>, usize)>, node: Seq<char>, outputs: Seq<usize>) -> Seq<char>
    decreases outputs.len(),
{
    if outputs.len() == 0 {
        Seq::empty()
    } else {
        output_arrows(names, node, outputs.drop_last()) + "  "@ + node + " -> "@ + var_name(names, outputs.last())
            + ";\n"@
    }
}

/// The arrows into and out of each method of `ms` of constraint `cname`.
pub open spec fn method_arrows(names: Seq<(Seq<char>, usize)>, cname: Seq<char>, ms: Seq<MethodView>) -> Seq<char>
    decreases ms.len(),
{
    if ms.len() == 0 {
        Seq::empty()
    } else {
        let node = method_node(cname, ms.last().name);
        method_arrows(names, cname, ms.drop_last()) + input_arrows(names, node, ms.last().inputs) + output_arrows(
            names,
            node,
            ms.last().outputs,
        )
    }
}

/// The arrows of the methods of all constraints of `cs`.
pub open spec fn arrows(names: Seq<(Seq<char>, usize)>, cs: Seq<ConstraintView>) -> Seq<char>
    decreases cs.len(),
{
    if cs.len() == 0 {
        Seq::empty()
    } else {
        arrows(names, cs.drop_last()) + method_arrows(names, cs.last().name, cs.last().methods)
    }
}

/// The directed graph of a component named `name` with `n` variables named by `names` and
/// constraints `cs`, with a node for every method.
pub open spec fn dot_detailed(name: Seq<char>, names: Seq<(Seq<char>, usize)>, n: nat, cs: Seq<ConstraintView>) -> Seq<
    char,
> {
    "strict digraph "@ + name + " {\n"@ + "  rankdir=LR;\n"@ + box_lines(names, n) + subgraphs(cs) + arrows(names, cs)
        + "}\n"@
}

/// Returns the name of the first of `entries` whose index is `i`, if there is one.
fn find_name(entries: &[(String, usize)], i: usize) -> (r: Option<&str>)
    ensures
        match r {
            Some(s) => name_of(crate::name_map::entry_views(entries@), i) == Some(s@),
            None => name_of(crate::name_map::entry_views(entries@), i) is None,
        },
{
    let ghost names = crate::name_map::entry_views(entries@);
    assert(names.subrange(0, names.len() as int) =~= names);
    let mut k: usize = 0;
    while k < entries.len()
        invariant
            k <= entries@.len(),
            names == crate::name_map::entry_views(entries@),
            name_of(names, i) == name_of(names.subrange(k as int, names.len() as int), i),
        decreases entries@.len() - k,
    {
        let ghost rest = names.subrange(k as int, names.len() as int);
        assert(rest[0] == names[k as int]);
        assert(rest.drop_first() =~= names.subrange(k + 1, names.len() as int));
        if entries[k].1 == i {
            return Some(entries[k].0.as_str());
        }
        k += 1;
    }
    assert(names.subrange(k as int, names.len() as int).len() == 0);
    None
}

/// Appends `s` to `buffer`.
fn write_str(buffer: &mut String, s: &str)
    ensures
        final(buffer)@ == old(buffer)@ + s@,
{
    buffer.append(s);
}

/// Appends the subgraph that groups the methods of `constraint`.
fn write_subgraph<T: 'static>(buffer: &mut String, constraint: &crate::constraint::Constraint<T>)
    ensures
        final(buffer)@ == old(buffer)@ + subgraph(constraint@),
{
    let cname = constraint.name();
    let methods = constraint.methods();
    let ghost ms = constraint@.methods;
    write_str(buffer, "  subgraph ");
    write_str(buffer, cname);
    write_str(buffer, " {\n");
    write_str(buffer, "    color=gray;\n");
    write_str(buffer, "    style=filled;\n");
    write_str(buffer, "    style=rounded;\n");
    write_str(buffer, "    label=");
    write_str(buffer, cname);
    write_str(buffer, ";\n");
    let ghost start = buffer@;
    let mut i: usize = 0;
    while i < methods.len()
        invariant
            i <= methods@.len(),
            method_views(methods@) == ms,
            buffer@ == start + method_nodes(cname@, ms.subrange(0, i as int)),
        decreases methods@.len() - i,
    {
        let mname = methods[i].name();
        assert(ms[i as int] == methods@[i as int]@);
        write_str(buffer, "    ");
        write_str(buffer, cname);
        write_str(buffer, "_");
        write_str(buffer, mname);
        write_str(buffer, " [label=");
        write_str(buffer, mname);
        write_str(buffer, "];\n");
        proof {
            let sub = ms.subrange(0, i + 1);
            assert(sub.drop_last() =~= ms.subrange(0, i as int));
            assert(buffer@ =~= start + method_nodes(cname@, sub));
        }
        i += 1;
    }
    assert(ms.subrange(0, ms.len() as int) =~= ms);
    write_str(buffer, "    { rank = same; ");
    let ghost middle = buffer@;
    let mut i: usize = 0;
    while i < methods.len()
        invariant
            i <= methods@.len(),
            method_views(methods@) == ms,
            buffer@ == middle + rank_entries(cname@, ms.subrange(0, i as int)),
        decreases methods@.len() - i,
    {
        let mname = methods[i].name();
        assert(ms[i as int] == methods@[i as int]@);
        write_str(buffer, cname);
        write_str(buffer, "_");
        write_str(buffer, mname);
        write_str(buffer, "; ");
        proof {
            let sub = ms.subrange(0, i + 1);
            assert(sub.drop_last() =~= ms.subrange(0, i as int));
            assert(buffer@ =~= middle + rank_entries(cname@, sub));
        }
        i += 1;
    }
    write_str(buffer, "}\n");
    write_str(buffer, "  }\n");
    assert(buffer@ =~= old(buffer)@ + subgraph(constraint@));
}

/// Appends the arrows into and out of method `m` of the constraint named `cname`.
fn write_arrows<T: 'static>(
    buffer: &mut String,
    entries: &[(String, usize)],
    cname: &str,
    m: &crate::method::Method<T>,
)
    requires
        forall|j: int| 0 <= j < m@.inputs.len() ==> #[trigger] name_of(crate::name_map::entry_views(entries@), m@.inputs[j]) is Some,
        forall|j: int| 0 <= j < m@.outputs.len() ==> #[trigger] name_of(crate::name_map::entry_views(entries@), m@.outputs[j]) is Some,
    ensures
        final(buffer)@ == old(buffer)@ + input_arrows(crate::name_map::entry_views(entries@), method_node(cname@, m@.name), m@.inputs)
            + output_arrows(crate::name_map::entry_views(entries@), method_node(cname@, m@.name), m@.outputs),
{
    let ghost names = crate::name_map::entry_views(entries@);
    let ghost node = method_node(cname@, m@.name);
    let mname = m.name();
    let inputs = m.inputs();
    let ghost start = buffer@;
    let mut j: usize = 0;
    while j < inputs.len()
        invariant
            j <= inputs@.len(),
            inputs@ == m@.inputs,
            mname@ == m@.name,
            node == method_node(cname@, m@.name),
            names == crate::name_map::entry_views(entries@),
            forall|k: int| 0 <= k < m@.inputs.len() ==> #[trigger] name_of(names, m@.inputs[k]) is Some,
            buffer@ == start + input_arrows(names, node, inputs@.subrange(0, j as int)),
        decreases inputs@.len() - j,
    {
        let v = inputs[j];
        assert(name_of(names, m@.inputs[j as int]) is Some);
        let name = match find_name(entries, v) {
            Some(name) => name,
            None => {
                assert(false);
                ""
            },
        };
        write_str(buffer, "  ");
        write_str(buffer, name);
        write_str(buffer, " -> ");
        write_str(buffer, cname);
        write_str(buffer, "_");
        write_str(buffer, mname);
        write_str(buffer, " [style=dotted];\n");
        proof {
            let sub = inputs@.subrange(0, j + 1);
            assert(sub.drop_last() =~= inputs@.subrange(0, j as int));
            assert(buffer@ =~= start + input_arrows(names, node, sub));
        }
        j += 1;
    }
    assert(inputs@.subrange(0, inputs@.len() as int) =~= inputs@);
    let outputs = m.outputs();
    let ghost middle = buffer@;
    let mut j: usize = 0;
    while j < outputs.len()
        invariant
            j <= outputs@.len(),
            outputs@ == m@.outputs,
            mname@ == m@.name,
            node == method_node(cname@, m@.name),
            names == crate::name_map::entry_views(entries@),
            forall|k: int| 0 <= k < m@.outputs.len() ==> #[trigger] name_of(names, m@.outputs[k]) is Some,
            buffer@ == middle + output_arrows(names, node, outputs@.subrange(0, j as int)),
        decreases outputs@.len() - j,
    {
        let v = outputs[j];
        assert(name_of(names, m@.outputs[j as int]) is Some);
        let name = match find_name(entries, v) {
            Some(name) => name,
            None => {
                assert(false);
                ""
            },
        };
        write_str(buffer, "  ");
        write_str(buffer, cname);
        write_str(buffer, "_");
        write_str(buffer, mname);
        write_str(buffer, " -> ");
        write_str(buffer, name);
        write_str(buffer, ";\n");
        proof {
            let sub = outputs@.subrange(0, j + 1);
            assert(sub.drop_last() =~= outputs@.subrange(0, j as int));
            assert(buffer@ =~= middle + output_arrows(names, node, sub));
        }
        j += 1;
    }
    assert(outputs@.subrange(0, outputs@.len() as int) =~= outputs@);
    assert(buffer@ =~= old(buffer)@ + input_arrows(names, node, m@.inputs) + output_arrows(names, node, m@.outputs));
}

impl<T: 'static> Component<T> {
    /// Appends a line for each of the first `n` variables that has a name, drawing it as a box.
    fn write_boxes(&self, buffer: &mut String)
        ensures
            final(buffer)@ == old(buffer)@ + box_lines(self.names(), self.n_vars()),
    {
        let entries = self.name_entries();
        let n = self.n_variables();
        let mut vi: usize = 0;
        while vi < n
            invariant
                vi <= n,
                n == self.n_vars(),
                crate::name_map::entry_views(entries@) == self.names(),
                buffer@ == old(buffer)@ + box_lines(self.names(), vi as nat),
            decreases n - vi,
        {
            if let Some(name) = find_name(entries, vi) {
                write_str(buffer, "  ");
                write_str(buffer, name);
                write_str(buffer, " [shape=box];\n");
            }
            proof {
                assert(box_lines(self.names(), (vi + 1) as nat) == box_lines(self.names(), vi as nat) + match name_of(
                    self.names(),
                    vi,
                ) {
                    Some(name) => "  "@ + name + " [shape=box];\n"@,
                    None => Seq::empty(),
                });
            }
            vi += 1;
        }
    }

    /// Constructs a string-representation of the component's constraint graph in the dot
    /// language of Graphviz, for visualization, with every method of every constraint: a box
    /// for each named variable, a subgraph for each constraint that holds a node for each of
    /// its methods, and arrows from the variables a method reads to its node and from its node
    /// to the variables it writes.
    pub fn to_dot_detailed(&self) -> (r: Result<String, std::fmt::Error>)
        requires
            method_variables_named(self.names(), self.constraints_view()),
        ensures
            r matches Ok(s) && s@ == dot_detailed(self.name_view(), self.names(), self.n_vars(), self.constraints_view()),
    {
        let entries = self.name_entries();
        let ghost names = self.names();
        let constraints = self.constraints();
        let ghost cs = self.constraints_view();
        let mut buffer = String::new();
        write_str(&mut buffer, "strict digraph ");
        write_str(&mut buffer, self.name());
        write_str(&mut buffer, " {\n");
        write_str(&mut buffer, "  rankdir=LR;\n");
        self.write_boxes(&mut buffer);
        let ghost with_boxes = buffer@;
        let mut c: usize = 0;
        while c < constraints.len()
            invariant
                c <= constraints@.len(),
                cs == crate::simple_planner::constraint_views(constraints@),
                buffer@ == with_boxes + subgraphs(cs.subrange(0, c as int)),
            decreases constraints@.len() - c,
        {
            assert(cs[c as int] == constraints@[c as int]@);
            write_subgraph(&mut buffer, &constraints[c]);
            proof {
                let s = cs.subrange(0, c + 1);
                assert(s.drop_last() =~= cs.subrange(0, c as int));
                assert(buffer@ =~= with_boxes + subgraphs(s));
            }
            c += 1;
        }
        assert(cs.subrange(0, cs.len() as int) =~= cs);
        let ghost with_subgraphs = buffer@;
        let mut c: usize = 0;
        while c < constraints.len()
            invariant
                c <= constraints@.len(),
                cs == crate::simple_planner::constraint_views(constraints@),
                names == self.names(),
                crate::name_map::entry_views(entries@) == names,
                method_variables_named(names, cs),
                buffer@ == with_subgraphs + arrows(names, cs.subrange(0, c as int)),
            decreases constraints@.len() - c,
        {
            let constraint = &constraints[c];
            assert(cs[c as int] == constraint@);
            let cname = constraint.name();
            let methods = constraint.methods();
            let ghost ms = cs[c as int].methods;
            let ghost before = buffer@;
            let mut i: usize = 0;
            while i < methods.len()
                invariant
                    i <= methods@.len(),
                    c < cs.len(),
                    method_views(methods@) == ms,
                    ms == cs[c as int].methods,
                    cname@ == cs[c as int].name,
                    crate::name_map::entry_views(entries@) == names,
                    method_variables_named(names, cs),
                    buffer@ == before + method_arrows(names, cname@, ms.subrange(0, i as int)),
                decreases methods@.len() - i,
            {
                let m = &methods[i];
                assert(ms[i as int] == m@);
                proof {
                    assert forall|j: int| 0 <= j < m@.inputs.len() implies #[trigger] name_of(names, m@.inputs[j]) is Some by {
                        assert(name_of(names, cs[c as int].methods[i as int].inputs[j]) is Some);
                    }
                    assert forall|j: int| 0 <= j < m@.outputs.len() implies #[trigger] name_of(names, m@.outputs[j]) is Some by {
                        assert(name_of(names, cs[c as int].methods[i as int].outputs[j]) is Some);
                    }
                }
                write_arrows(&mut buffer, entries, cname, m);
                proof {
                    let s = ms.subrange(0, i + 1);
                    assert(s.drop_last() =~= ms.subrange(0, i as int));
                    assert(s.last() == m@);
                    assert(buffer@ =~= before + method_arrows(names, cname@, s));
                }
                i += 1;
            }
            proof {
                assert(ms.subrange(0, ms.len() as int) =~= ms);
                let s = cs.subrange(0, c + 1);
                assert(s.drop_last() =~= cs.subrange(0, c as int));
                assert(s.last() == cs[c as int]);
                assert(buffer@ =~= with_subgraphs + arrows(names, s));
            }
            c += 1;
        }
        write_str(&mut buffer, "}\n");
        proof {
            assert(cs.subrange(0, cs.len() as int) =~= cs);
            assert(buffer@ =~= dot_detailed(self.name_view(), names, self.n_vars(), cs));
        }
        Ok(buffer)
    }

    /// Constructs a string-representation of the component's constraint graph in the dot
    /// language of Graphviz, for visualization. Only constraints appear, not methods: a box for
    /// each named variable, and a line from each constraint to each of its variables.
    pub fn to_dot_simple(&self) -> (r: Result<String, std::fmt::Error>)
        requires
            variables_named(self.names(), self.constraints_view()),
        ensures
            r matches Ok(s) && s@ == dot_simple(self.name_view(), self.names(), self.n_vars(), self.constraints_view()),
    {
        let entries = self.name_entries();
        let ghost names = self.names();
        let constraints = self.constraints();
        let ghost cs = self.constraints_view();
        let mut buffer = String::new();
        write_str(&mut buffer, "strict graph ");
        write_str(&mut buffer, self.name());
        write_str(&mut buffer, " {\n");
        let ghost header = buffer@;
        self.write_boxes(&mut buffer);
        let ghost with_boxes = buffer@;
        let mut c: usize = 0;
        while c < constraints.len()
            invariant
                c <= constraints@.len(),
                cs == crate::simple_planner::constraint_views(constraints@),
                names == self.names(),
                crate::name_map::entry_views(entries@) == names,
                variables_named(names, cs),
                buffer@ == with_boxes + edge_lines(names, cs.subrange(0, c as int)),
            decreases constraints@.len() - c,
        {
            let constraint = &constraints[c];
            assert(cs[c as int] == constraint@);
            let cname = constraint.name();
            let vars = constraint.variables();
            let ghost before = buffer@;
            let mut j: usize = 0;
            while j < vars.len()
                invariant
                    j <= vars@.len(),
                    c < cs.len(),
                    vars@ == cs[c as int].variables,
                    cname@ == cs[c as int].name,
                    crate::name_map::entry_views(entries@) == names,
                    variables_named(names, cs),
                    buffer@ == before + constraint_edges(names, cname@, vars@.subrange(0, j as int)),
                decreases vars@.len() - j,
            {
                let v = vars[j];
                assert(name_of(names, cs[c as int].variables[j as int]) is Some);
                let name = match find_name(entries, v) {
                    Some(name) => name,
                    None => {
                        assert(false);
                        ""
                    },
                };
                write_str(&mut buffer, "    ");
                write_str(&mut buffer, cname);
                write_str(&mut buffer, " -- ");
                write_str(&mut buffer, name);
                write_str(&mut buffer, ";\n");
                proof {
                    let s = vars@.subrange(0, j + 1);
                    assert(s.drop_last() =~= vars@.subrange(0, j as int));
                    assert(s.last() == v);
                    assert(buffer@ =~= before + constraint_edges(names, cname@, s));
                }
                j += 1;
            }
            proof {
                assert(vars@.subrange(0, vars@.len() as int) =~= vars@);
                let s = cs.subrange(0, c + 1);
                assert(s.drop_last() =~= cs.subrange(0, c as int));
                assert(s.last() == cs[c as int]);
                assert(buffer@ =~= with_boxes + edge_lines(names, s));
            }
            c += 1;
        }
        write_str(&mut buffer, "}\n");
        proof {
            assert(cs.subrange(0, cs.len() as int) =~= cs);
            assert(buffer@ =~= dot_simple(self.name_view(), names, self.n_vars(), cs));
        }
        Ok(buffer)
    }
}

} // verus!
