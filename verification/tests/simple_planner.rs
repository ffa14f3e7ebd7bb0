use hotdrink_rs::component::Component;
use hotdrink_rs::constraint_system::ConstraintSystem;
use hotdrink_rs::error::MethodFailure;
use hotdrink_rs::method::{Identity, MethodFn, MethodFunction};
use hotdrink_rs::raw::{RawComponent, RawConstraint, RawMethod};
use hotdrink_rs::simple_planner::{new_simple_planner_toposort, simple_planner, SatisfiedConstraint};
use hotdrink_rs::toposort::toposort;

#[derive(Debug)]
struct Twice;

impl MethodFn<()> for Twice {
    fn call(&self, args: Vec<()>) -> Result<Vec<()>, MethodFailure> {
        Ok(vec![args[0], args[0]])
    }
}

fn method<T: 'static>(name: &str, inputs: &[&str], outputs: &[&str], f: MethodFunction<T>) -> RawMethod<T> {
    RawMethod::new(name, inputs.to_vec(), outputs.to_vec(), f)
}

fn component<T: Clone + 'static>(name: &str, variables: Vec<(&str, T)>, constraints: Vec<RawConstraint<T>>) -> Component<T> {
    let names = variables.iter().map(|v| v.0).collect();
    let values = variables.into_iter().map(|v| v.1).collect();
    RawComponent::new(name, names, values, constraints).into_component()
}

fn numbered(prefix: &str, n: usize) -> Vec<String> {
    (0..n).map(|id| prefix.to_string() + &id.to_string()).collect()
}

fn make_cs(n_variables: usize, make_constraints: impl Fn(&[String], &[String]) -> Vec<RawConstraint<()>>) -> ConstraintSystem<()> {
    let variable_names = numbered("var", n_variables);
    let constraint_names = numbered("constraint", n_variables);
    let constraints = make_constraints(&constraint_names, &variable_names);
    let names: Vec<&str> = variable_names.iter().map(|s| s.as_str()).collect();
    let comp = RawComponent::new("0", names, vec![(); n_variables], constraints);
    let mut cs = ConstraintSystem::new();
    cs.add_component(comp.into_component());
    cs
}

fn linear_oneway(_: usize, n_variables: usize) -> ConstraintSystem<()> {
    make_cs(n_variables, |constraint_names, variable_names| {
        let mut constraints = Vec::new();
        for constraint_id in 1..variable_names.len() {
            let prev: &str = &variable_names[constraint_id - 1];
            let current: &str = &variable_names[constraint_id];
            constraints.push(RawConstraint::new(
                &constraint_names[constraint_id],
                vec![method("right", &[prev], &[current], &Identity)],
            ));
        }
        constraints
    })
}

fn multioutput_singleway(_: usize, n_variables: usize) -> ConstraintSystem<()> {
    make_cs(n_variables, |constraint_names, variable_names| {
        let n_variables = variable_names.len();
        let mut constraints = Vec::new();
        for current in 0..n_variables {
            let left = 2 * current + 1;
            let right = 2 * current + 2;
            if left >= n_variables || right >= n_variables {
                break;
            }
            constraints.push(RawConstraint::new(
                &constraint_names[current],
                vec![method(
                    "m",
                    &[variable_names[current].as_str()],
                    &[variable_names[left].as_str(), variable_names[right].as_str()],
                    &Twice,
                )],
            ));
        }
        constraints
    })
}

/// Every variable is connected to every later one by a two-way constraint.
fn make_dense_cs(_: usize, n_variables: usize) -> ConstraintSystem<()> {
    make_cs(n_variables, |_, variable_names| {
        let n_variables = variable_names.len();
        let mut constraints = Vec::new();
        for a in 0..n_variables {
            for b in (a + 1)..n_variables {
                let name = format!("constraint{}_{}", a, b);
                constraints.push(RawConstraint::new(
                    &name,
                    vec![
                        method("forward", &[variable_names[a].as_str()], &[variable_names[b].as_str()], &Identity),
                        method("backward", &[variable_names[b].as_str()], &[variable_names[a].as_str()], &Identity),
                    ],
                ));
            }
        }
        constraints
    })
}

#[test]
fn empty_component_gives_empty_plan() {
    let comp: Component<()> = component("Comp", vec![("a", ())], vec![]);
    let plan = simple_planner(&comp);
    assert_eq!(plan, Some(vec![]));
}

#[test]
fn one_method_gives_single_method_plan() {
    let comp: Component<()> = component(
        "Comp",
        vec![("a", ())],
        vec![RawConstraint::new("C", vec![method("c", &["a"], &["a"], &Identity)])],
    );
    let c = comp.constraint("C").method("c");
    let plan = simple_planner(&comp);
    assert_eq!(plan, Some(vec![SatisfiedConstraint::new("C", c)]));
}

#[test]
fn sum_product() {
    let comp: Component<i32> = component(
        "Comp",
        vec![("a", 0), ("b", 0), ("c", 0), ("d", 0)],
        vec![
            RawConstraint::new(
                "Sum",
                vec![
                    method("s1", &["a", "b"], &["c"], &Identity),
                    method("s2", &["b", "c"], &["a"], &Identity),
                    method("s3", &["c", "a"], &["b"], &Identity),
                ],
            ),
            RawConstraint::new(
                "Product",
                vec![
                    method("p1", &["a", "b"], &["d"], &Identity),
                    method("p2", &["b", "d"], &["a"], &Identity),
                    method("p3", &["d", "a"], &["b"], &Identity),
                ],
            ),
        ],
    );
    let p1 = comp.constraint("Product").method("p1");
    let s1 = comp.constraint("Sum").method("s1");
    let plan = new_simple_planner_toposort(&comp);
    assert_eq!(
        plan,
        Some(vec![SatisfiedConstraint::new("Product", p1), SatisfiedConstraint::new("Sum", s1)])
    );
}

#[test]
fn small_linear() {
    let comp: Component<i32> = component(
        "Comp",
        vec![("a", 0), ("b", 0), ("c", 0), ("d", 0), ("e", 0)],
        vec![
            RawConstraint::new("a_to_b", vec![method("a_to_b", &["a"], &["b"], &Identity)]),
            RawConstraint::new("b_to_c", vec![method("b_to_c", &["b"], &["c"], &Identity)]),
            RawConstraint::new("c_to_d", vec![method("c_to_d", &["c"], &["d"], &Identity)]),
            RawConstraint::new("d_to_e", vec![method("d_to_e", &["d"], &["e"], &Identity)]),
        ],
    );
    let m = |name: &str| comp.constraint(name).method(name);
    let plan = simple_planner(&comp);
    assert_eq!(
        &plan,
        &Some(vec![
            SatisfiedConstraint::new("d_to_e", m("d_to_e")),
            SatisfiedConstraint::new("c_to_d", m("c_to_d")),
            SatisfiedConstraint::new("b_to_c", m("b_to_c")),
            SatisfiedConstraint::new("a_to_b", m("a_to_b")),
        ])
    );
    let plan = plan.unwrap();
    let sorted = toposort(&plan, comp.n_variables());
    assert_eq!(
        sorted,
        Some(vec![
            &SatisfiedConstraint::new("a_to_b", m("a_to_b")),
            &SatisfiedConstraint::new("b_to_c", m("b_to_c")),
            &SatisfiedConstraint::new("c_to_d", m("c_to_d")),
            &SatisfiedConstraint::new("d_to_e", m("d_to_e")),
        ])
    );
}

#[test]
pub fn big_linear() {
    let linear_cs: ConstraintSystem<()> = linear_oneway(1, 1000);
    let linear_comp = linear_cs.get_component("0");
    let _ = simple_planner(linear_comp);
}

#[test]
pub fn big_tree() {
    let cs: ConstraintSystem<()> = multioutput_singleway(1, 10);
    let comp = cs.get_component("0");
    let _ = simple_planner(comp);
}

#[test]
pub fn big_dense() {
    let cs: ConstraintSystem<()> = make_dense_cs(1, 100);
    let comp = cs.get_component("0");
    let _ = simple_planner(comp);
}

#[test]
pub fn selects_method_where_all_outputs_are_free_first() {
    let comp: Component<i32> = component(
        "Comp",
        vec![("a", 0), ("b", 0), ("c", 0), ("d", 0)],
        vec![
            RawConstraint::new("A", vec![method("a1", &["b"], &["a", "c"], &Identity)]),
            RawConstraint::new("B", vec![method("b1", &["c"], &["d"], &Identity)]),
        ],
    );
    let plan = simple_planner(&comp);
    assert_eq!(
        plan,
        Some(vec![
            SatisfiedConstraint::new("B", comp.constraint("B").method("b1")),
            SatisfiedConstraint::new("A", comp.constraint("A").method("a1"))
        ])
    );
}

#[test]
pub fn selected_free_method_must_write_to_variable() {
    let comp: Component<i32> = component(
        "Comp",
        vec![("_a", 0)],
        vec![RawConstraint::new("A", vec![method("a1", &["_a"], &[], &Identity)])],
    );
    let plan = simple_planner(&comp);
    assert_eq!(plan, None,);
}

#[test]
fn fewest_outputs_is_preferred_among_free_methods() {
    let comp: Component<i32> = component(
        "Comp",
        vec![("a", 0), ("b", 0), ("c", 0)],
        vec![RawConstraint::new(
            "A",
            vec![
                method("to_bc", &["a"], &["b", "c"], &Identity),
                method("to_b", &["a", "c"], &["b"], &Identity),
            ],
        )],
    );
    let plan = simple_planner(&comp);
    assert_eq!(plan, Some(vec![SatisfiedConstraint::new("A", comp.constraint("A").method("to_b"))]));
}

#[test]
fn two_writers_of_one_variable_give_none() {
    // b is written by both constraints, and no other variable can be written.
    let comp: Component<i32> = component(
        "Comp",
        vec![("a", 0), ("b", 0), ("c", 0)],
        vec![
            RawConstraint::new("A", vec![method("ab", &["a"], &["b"], &Identity)]),
            RawConstraint::new("C", vec![method("cb", &["c"], &["b"], &Identity)]),
        ],
    );
    assert_eq!(simple_planner(&comp), None);
    assert!(new_simple_planner_toposort(&comp).is_none());
}

#[test]
fn constraint_freed_later_is_planned() {
    // Popping x finds no method of A that writes x; A becomes plannable only once C is.
    let comp: Component<i32> = component(
        "Comp",
        vec![("x", 0), ("y", 0), ("z", 0)],
        vec![
            RawConstraint::new("A", vec![method("xy", &["x"], &["y"], &Identity)]),
            RawConstraint::new("C", vec![method("yz", &["y"], &["z"], &Identity)]),
        ],
    );
    let plan = simple_planner(&comp).unwrap();
    let names: Vec<&str> = plan.iter().map(|sc| sc.name()).collect();
    assert_eq!(names, vec!["C", "A"]);
}
