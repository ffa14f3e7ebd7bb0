//! A multiway dataflow constraint system: variables, constraints between them,
//! planners that select one method per constraint, and a solver that runs the plan.

pub mod vertex;
pub mod toposort;
pub mod error;

pub mod util;
pub mod method;
pub mod constraint;
pub mod sorting;
pub mod simple_planner;
pub mod activation;
pub mod event;
pub mod ranking;
pub mod variable_information;
pub mod name_map;
pub mod component;
pub mod dot;
pub mod pruner;
pub mod hierarchical_planner;
pub mod priority_adjuster;
pub mod priority;
pub mod solver;
pub mod constraint_system;
pub mod raw;
pub mod fib;
pub mod callback;
pub mod builders;
pub mod experimental;
pub mod laws;
pub mod traits;
