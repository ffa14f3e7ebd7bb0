use hotdrink_rs::component::Component;
use hotdrink_rs::constraint::Constraint;
use hotdrink_rs::constraint_system::ConstraintSystem;
use hotdrink_rs::method::{Identity, Method};
use hotdrink_rs::raw::{RawComponent, RawConstraint, RawMethod};

fn abc() -> Component<i32> {
    RawComponent::new(
        "Component",
        vec!["a", "b", "c"],
        vec![1, 2, 3],
        vec![RawConstraint::new(
            "Copy",
            vec![
                RawMethod::new("ab", vec!["a"], vec!["b"], &Identity),
                RawMethod::new("ba", vec!["b"], vec!["a"], &Identity),
            ],
        )],
    )
    .into_component()
}

#[test]
fn get_after_set_reads_the_value() {
    let mut c = abc();
    c.set_variable("b", 20).unwrap();
    assert_eq!(c.get_variable("b"), Some(20));
}

#[test]
fn set_keeps_other_values() {
    let mut c = abc();
    c.set_variable("b", 20).unwrap();
    assert_eq!(c.get_variable("a"), Some(1));
    assert_eq!(c.get_variable("c"), Some(3));
}

#[test]
fn set_ranks_highest() {
    let mut c = abc();
    c.set_variable("c", 30).unwrap();
    assert_eq!(c.ranking()[0], 2);
    c.set_variable("a", 10).unwrap();
    assert_eq!(c.ranking(), vec![0, 2, 1]);
}

#[test]
fn system_get_after_set_reads_the_value() {
    let mut cs = ConstraintSystem::new();
    cs.add_component(abc());
    cs.set_variable("Component", "a", 7);
    assert_eq!(cs.get_variable("Component", "a"), Some(7));
    assert_eq!(cs.get_variable("Component", "b"), Some(2));
}

#[test]
fn pop_undoes_push() {
    let mut c = abc();
    let before: Vec<String> = c.constraints().iter().map(|c| c.name().to_string()).collect();
    let m = Method::new("m".to_string(), vec![0], vec![2], &Identity);
    c.push(Constraint::new_with_name("Extra".to_string(), vec![m]));
    let popped = c.pop().unwrap();
    assert_eq!(popped.name(), "Extra");
    let after: Vec<String> = c.constraints().iter().map(|c| c.name().to_string()).collect();
    assert_eq!(before, after);
}

#[test]
fn unpin_undoes_pin() {
    let mut c = abc();
    let n = c.constraints().len();
    c.pin("b");
    assert_eq!(c.constraints().len(), n + 1);
    assert_eq!(c.constraints()[n].methods()[0].name(), "pin1");
    c.unpin("b");
    assert_eq!(c.constraints().len(), n);
    assert_eq!(c.constraints()[0].name(), "Copy");
}

#[test]
fn remove_method_undoes_add_method() {
    let mut k: Constraint<i32> = Constraint::new_with_name(
        "K".to_string(),
        vec![Method::new("m1".to_string(), vec![0], vec![1], &Identity)],
    );
    let variables = k.variables().to_vec();
    k.add_method(Method::new("m2".to_string(), vec![2], vec![3], &Identity));
    assert_eq!(k.variables().len(), 4);
    k.remove_method("m2");
    assert_eq!(k.methods().len(), 1);
    assert_eq!(k.methods()[0].name(), "m1");
    assert_eq!(k.variables(), variables.as_slice());
}

#[test]
fn failed_system_update_leaves_the_failing_component() {
    let over = RawComponent::new(
        "Over",
        vec!["a", "b", "c"],
        vec![1, 2, 3],
        vec![
            RawConstraint::new("A", vec![RawMethod::new("ab", vec!["a"], vec!["b"], &Identity)]),
            RawConstraint::new("C", vec![RawMethod::new("cb", vec!["c"], vec!["b"], &Identity)]),
        ],
    )
    .into_component();
    let mut cs = ConstraintSystem::new();
    cs.add_component(abc());
    cs.add_component(over);
    cs.set_variable("Component", "a", 5);
    cs.set_variable("Over", "a", 9);
    assert!(cs.update().is_err());
    // The first component was updated, the failing one is as it was.
    assert_eq!(cs.get_variable("Component", "b"), Some(5));
    assert_eq!(cs.get_variable("Over", "a"), Some(9));
    assert_eq!(cs.get_variable("Over", "b"), Some(2));
}

#[test]
fn the_variable_set_last_keeps_its_value() {
    let mut c = abc();
    c.set_variable("b", 20).unwrap();
    c.update().unwrap();
    assert_eq!(c.get_variable("b"), Some(20));
    assert_eq!(c.get_variable("a"), Some(20));
    c.set_variable("a", 7).unwrap();
    c.update().unwrap();
    assert_eq!(c.get_variable("a"), Some(7));
    assert_eq!(c.get_variable("b"), Some(7));
}

#[test]
fn the_variables_set_last_keep_their_values() {
    let mut c = RawComponent::new(
        "Pairs",
        vec!["a", "b", "c", "d"],
        vec![1, 2, 3, 4],
        vec![
            RawConstraint::new(
                "AB",
                vec![
                    RawMethod::new("ab", vec!["a"], vec!["b"], &Identity),
                    RawMethod::new("ba", vec!["b"], vec!["a"], &Identity),
                ],
            ),
            RawConstraint::new(
                "CD",
                vec![
                    RawMethod::new("cd", vec!["c"], vec!["d"], &Identity),
                    RawMethod::new("dc", vec!["d"], vec!["c"], &Identity),
                ],
            ),
        ],
    )
    .into_component();
    c.set_variable("b", 20).unwrap();
    c.set_variable("d", 40).unwrap();
    assert_eq!(c.ranking()[0], 3);
    assert_eq!(c.ranking()[1], 1);
    c.update().unwrap();
    assert_eq!(c.get_variable("b"), Some(20));
    assert_eq!(c.get_variable("d"), Some(40));
    assert_eq!(c.get_variable("a"), Some(20));
    assert_eq!(c.get_variable("c"), Some(40));
}

#[test]
fn system_unpin_removes_only_the_pin() {
    let mut cs = ConstraintSystem::new();
    cs.add_component(abc());
    cs.pin("Component", "b");
    assert_eq!(cs.get_component("Component").constraints().len(), 2);
    cs.unpin("Component", "b");
    let c = cs.get_component("Component");
    assert_eq!(c.constraints().len(), 1);
    assert_eq!(c.constraints()[0].name(), "Copy");
    assert_eq!(cs.get_variable("Component", "b"), Some(2));
}
