use hotdrink_rs::component::Component;
use hotdrink_rs::error::PlanError;
use hotdrink_rs::hierarchical_planner::{hierarchical_planner, OwnedEnforcedConstraint};
use hotdrink_rs::method::{Identity, Method, MethodFunction};
use hotdrink_rs::raw::{RawComponent, RawConstraint, RawMethod};
use hotdrink_rs::vertex::Vertex;

fn method<T: 'static>(name: &str, inputs: &[&str], outputs: &[&str], f: MethodFunction<T>) -> RawMethod<T> {
    RawMethod::new(name, inputs.to_vec(), outputs.to_vec(), f)
}

fn component<T: Clone + 'static>(name: &str, variables: Vec<(&str, T)>, constraints: Vec<RawConstraint<T>>) -> Component<T> {
    let names = variables.iter().map(|v| v.0).collect();
    let values = variables.into_iter().map(|v| v.1).collect();
    RawComponent::new(name, names, values, constraints).into_component()
}

#[test]
fn hierarchical_planner_1() {
    let a_to_b = Method::new("a_to_b".to_string(), vec![0], vec![1], &Identity);
    let b_to_a = Method::new("b_to_a".to_string(), vec![1], vec![0], &Identity);
    let component: Component<&str> = Component::new(
        "foo".to_string(),
        vec!["a", "b"],
        vec![hotdrink_rs::constraint::Constraint::new(vec![a_to_b.clone(), b_to_a.clone()])],
    );
    assert_eq!(
        hierarchical_planner::<&str>(&component, &[0, 1]),
        Ok(vec![OwnedEnforcedConstraint::new("", a_to_b)])
    );
    assert_eq!(
        hierarchical_planner::<&str>(&component, &[1, 0]),
        Ok(vec![OwnedEnforcedConstraint::new("", b_to_a)])
    );
}

#[test]
fn hierarchical_planner_2() {
    let component: Component<i32> = component(
        "Comp",
        vec![("a", 0), ("b", 0), ("c", 0)],
        vec![RawConstraint::new(
            "C",
            vec![
                method("m1", &["a", "b"], &["c"], &Identity),
                method("m2", &["b", "c"], &["a"], &Identity),
                method("m3", &["c", "a"], &["b"], &Identity),
            ],
        )],
    );
    assert_eq!(
        hierarchical_planner(&component, &[0, 1, 2]),
        Ok(vec![OwnedEnforcedConstraint::new("C", component.constraint("C").method("m1").clone())])
    );
}

#[test]
fn hierarchical_planner_two_way_chain() {
    let component: Component<()> = component(
        "DummyComponent",
        vec![("a", ()), ("b", ()), ("c", ()), ("d", ())],
        vec![
            RawConstraint::new("A", vec![method("a1", &["a"], &["b"], &Identity), method("a2", &["b"], &["a"], &Identity)]),
            RawConstraint::new("B", vec![method("b1", &["b"], &["c"], &Identity), method("b2", &["c"], &["b"], &Identity)]),
            RawConstraint::new("C", vec![method("c1", &["c"], &["d"], &Identity), method("c2", &["d"], &["c"], &Identity)]),
        ],
    );
    assert_eq!(
        hierarchical_planner(&component, &[0, 1, 2, 3]),
        Ok(vec![
            OwnedEnforcedConstraint::new("A", component.constraint("A").method("a1").clone()),
            OwnedEnforcedConstraint::new("B", component.constraint("B").method("b1").clone()),
            OwnedEnforcedConstraint::new("C", component.constraint("C").method("c1").clone()),
        ])
    );
}

#[test]
fn overconstrained_component_has_no_plan() {
    let component: Component<i32> = component(
        "Comp",
        vec![("a", 0), ("b", 0)],
        vec![
            RawConstraint::new("A", vec![method("a1", &["a"], &["b"], &Identity)]),
            RawConstraint::new("B", vec![method("b1", &["a"], &["b"], &Identity)]),
        ],
    );
    assert_eq!(hierarchical_planner(&component, &[0, 1]), Err(PlanError::Overconstrained));
}

#[test]
fn plan_writes_each_variable_once_and_in_order() {
    let component: Component<i32> = component(
        "Comp",
        vec![("a", 0), ("b", 0), ("c", 0)],
        vec![
            RawConstraint::new("Ab", vec![method("ab", &["a"], &["b"], &Identity), method("ba", &["b"], &["a"], &Identity)]),
            RawConstraint::new("Bc", vec![method("bc", &["b"], &["c"], &Identity), method("cb", &["c"], &["b"], &Identity)]),
        ],
    );
    let plan = hierarchical_planner(&component, &[2, 1, 0]).unwrap();
    assert_eq!(
        plan,
        vec![
            OwnedEnforcedConstraint::new("Bc", component.constraint("Bc").method("cb").clone()),
            OwnedEnforcedConstraint::new("Ab", component.constraint("Ab").method("ba").clone()),
        ]
    );
    let stay = OwnedEnforcedConstraint::<Method<i32>>::stay(3);
    assert_eq!(stay.name(), "stay(3)");
    assert_eq!(stay.method().name(), "_stay_3");
}

#[test]
fn plan_leaves_the_keepable_prefix_of_the_ranking_unwritten() {
    let pairs: Component<i32> = component(
        "Pairs",
        vec![("a", 0), ("b", 0), ("c", 0), ("d", 0)],
        vec![
            RawConstraint::new("Ab", vec![method("ab", &["a"], &["b"], &Identity), method("ba", &["b"], &["a"], &Identity)]),
            RawConstraint::new("Cd", vec![method("cd", &["c"], &["d"], &Identity), method("dc", &["d"], &["c"], &Identity)]),
        ],
    );
    let plan = hierarchical_planner(&pairs, &[1, 3, 0, 2]).unwrap();
    assert_eq!(plan.len(), 2);
    for entry in &plan {
        assert!(!entry.method().outputs().contains(&1));
        assert!(!entry.method().outputs().contains(&3));
    }
    // `a` and `c` cannot both keep their values: the variable ranked first does.
    let chain: Component<i32> = component(
        "Chain",
        vec![("a", 0), ("b", 0), ("c", 0)],
        vec![
            RawConstraint::new("Ab", vec![method("ab", &["a"], &["b"], &Identity), method("ba", &["b"], &["a"], &Identity)]),
            RawConstraint::new("Bc", vec![method("bc", &["b"], &["c"], &Identity), method("cb", &["c"], &["b"], &Identity)]),
        ],
    );
    let plan = hierarchical_planner(&chain, &[0, 2, 1]).unwrap();
    assert_eq!(
        plan,
        vec![
            OwnedEnforcedConstraint::new("Ab", chain.constraint("Ab").method("ab").clone()),
            OwnedEnforcedConstraint::new("Bc", chain.constraint("Bc").method("bc").clone()),
        ]
    );
}

#[test]
fn later_ranked_variable_kept_after_an_unkeepable_one() {
    // `a` and `b` cannot both keep their values, but `a` and `c` can: `c` stays too.
    let component: Component<i32> = component(
        "Greedy",
        vec![("a", 0), ("b", 0), ("c", 0), ("d", 0)],
        vec![
            RawConstraint::new("Eq", vec![method("a_to_b", &["a"], &["b"], &Identity), method("b_to_a", &["b"], &["a"], &Identity)]),
            RawConstraint::new(
                "Sum",
                vec![method("to_d", &["b", "c"], &["d"], &Identity), method("to_c", &["b", "d"], &["c"], &Identity)],
            ),
        ],
    );
    let plan = hierarchical_planner(&component, &[0, 1, 2, 3]).unwrap();
    assert_eq!(plan.len(), 2);
    for entry in &plan {
        assert!(!entry.outputs().contains(&0));
        assert!(!entry.outputs().contains(&2));
    }
    assert!(plan.iter().any(|e| e.outputs().contains(&1)));
    assert!(plan.iter().any(|e| e.outputs().contains(&3)));
}
