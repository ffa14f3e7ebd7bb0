# hotdrink-rs

A multiway dataflow constraint system, verified with Verus.

Variables hold values; constraints between them each have several methods, any of which can
enforce the constraint by computing some variables from others. When variables are set, the
planners choose one method per constraint, favouring the variables that were set most recently,
and the solver runs the chosen methods in an order in which each method's inputs are ready.

## Layout

- `src/` is the verified library.
  - `vertex`, `toposort`: methods as vertices of a dataflow graph, and topological sorting.
  - `method`, `constraint`, `component`, `constraint_system`, `name_map`: the data model.
  - `simple_planner`, `pruner`, `hierarchical_planner`, `priority_adjuster`, `ranking`,
    `priority`, `experimental`: planning.
  - `solver`, `activation`, `event`, `variable_information`, `callback`: running a plan and
    telling listeners about the outcome.
  - `builders`, `raw`: building components from names instead of indices.
  - `dot`: the constraint graph in the dot language of Graphviz.
  - `traits`: the interfaces of methods, constraints and components.
  - `laws`: properties that relate operations to each other.
- `tests/` exercises the library.
- `app/` holds what the verifier does not take: values behind locks, futures over activations,
  adapters from closures, and the interface of executors with termination handles. Solving in
  `src/` runs each method's computation in place, one after the other; nothing in the crate hands
  computations to an executor or cancels them.
