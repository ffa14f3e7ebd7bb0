use hotdrink_rs::activation::VariableActivation;
use hotdrink_rs::component::Component;
use hotdrink_rs::constraint_system::ConstraintSystem;
use hotdrink_rs::error::{ComponentError, MethodFailure};
use hotdrink_rs::method::{MethodFn, MethodFunction};
use hotdrink_rs::raw::{RawComponent, RawConstraint, RawMethod};

#[derive(Debug)]
struct Add;

impl MethodFn<i32> for Add {
    fn call(&self, args: Vec<i32>) -> Result<Vec<i32>, MethodFailure> {
        Ok(vec![args[0] + args[1]])
    }
}

/// The second value minus the first.
#[derive(Debug)]
struct Sub;

impl MethodFn<i32> for Sub {
    fn call(&self, args: Vec<i32>) -> Result<Vec<i32>, MethodFailure> {
        Ok(vec![args[1] - args[0]])
    }
}

fn method<T: 'static>(name: &str, inputs: &[&str], outputs: &[&str], f: MethodFunction<T>) -> RawMethod<T> {
    RawMethod::new(name, inputs.to_vec(), outputs.to_vec(), f)
}

fn sum() -> Component<i32> {
    RawComponent::new(
        "Component",
        vec!["a", "b", "c"],
        vec![0, 0, 0],
        vec![RawConstraint::new(
            "Sum",
            vec![
                method("abc", &["a", "b"], &["c"], &Add),
                method("acb", &["a", "c"], &["b"], &Sub),
                method("bca", &["b", "c"], &["a"], &Sub),
            ],
        )],
    )
    .into_component()
}

#[test]
fn solve_sum() {
    // Construct component
    let mut component: Component<i32> = sum();

    assert_eq!(
        component.variables(),
        &[VariableActivation::from(0), VariableActivation::from(0), VariableActivation::from(0)]
    );

    // Update a to 3
    component.set_variable("a", 3).unwrap();
    component.par_update().unwrap();

    assert_eq!(
        component.variables(),
        &[VariableActivation::from(3), VariableActivation::from(0), VariableActivation::from(3)]
    );

    // Update c to 2
    component.set_variable("c", 2).unwrap();
    component.update().unwrap();

    assert_eq!(
        component.variables(),
        &[VariableActivation::from(3), VariableActivation::from(-1), VariableActivation::from(2)]
    );
}

#[test]
fn pin_unpin() {
    // Construct component
    let mut component: Component<i32> = sum();
    let val1 = 3;

    // Pin c, which has the lowest priority
    component.pin("c");
    component.set_variable("a", val1).unwrap();
    component.update().unwrap();

    // It should pick b, since it is not pinned and has a lower priority than a
    assert_eq!(
        component.variables(),
        &[VariableActivation::from(val1), VariableActivation::from(-val1), VariableActivation::from(0)]
    );

    let val2 = 5;

    // Unpin c
    component.unpin("c");
    component.set_variable("a", val2).unwrap();
    component.update().unwrap();

    // It should pick c, since c is no longer pinned
    assert_eq!(
        component.variables(),
        &[VariableActivation::from(val2), VariableActivation::from(-val1), VariableActivation::from(val2 - val1)]
    );
}

#[test]
pub fn constraint_system_test() {
    // Construct the constraint system
    let mut cs = ConstraintSystem::new();
    cs.add_component(
        RawComponent::new(
            "comp",
            vec!["a", "b", "c"],
            vec![0, 0, 0],
            vec![RawConstraint::new(
                "sum",
                vec![
                    method("abc", &["a", "b"], &["c"], &Add),
                    method("bca", &["b", "c"], &["a"], &Add),
                    method("cab", &["c", "a"], &["b"], &Add),
                ],
            )],
        )
        .into_component(),
    );

    // Update a few variable values
    cs.set_variable("comp", "a", 7);
    assert_eq!(cs.update(), Ok(()));
}

#[test]
fn setting_an_unknown_variable_fails() {
    let mut component = sum();
    assert_eq!(component.set_variable("x", 1), Err(ComponentError::NoSuchVariable));
    assert_eq!(component.get_variable("x"), None);
    assert_eq!(component.get_variable("b"), Some(0));
    assert!(component.is_modified());
    component.update().unwrap();
    assert!(!component.is_modified());
}

#[test]
fn constraint_system_reads_back_values() {
    let mut cs = ConstraintSystem::new();
    cs.add_component(sum());
    cs.set_variable("Component", "a", 4);
    cs.set_variable("Component", "b", 5);
    cs.update().unwrap();
    assert_eq!(cs.get_variable("Component", "c"), Some(9));
    assert_eq!(cs.get_variable("Component", "d"), None);
    cs.par_update_always().unwrap();
    assert_eq!(cs.get_variable("Component", "c"), Some(9));
}

#[test]
fn pin_adds_a_named_constraint() {
    let mut component = sum();
    component.pin("b");
    let pinned = &component.constraints()[1];
    assert_eq!(pinned.methods()[0].name(), "pin1");
    component.unpin("b");
    assert_eq!(component.constraints().len(), 1);
}

#[test]
fn variable_names_and_indices() {
    let mut component = sum();
    assert_eq!(component.variable_names(), vec!["a", "b", "c"]);
    assert_eq!(component.name_to_idx("c"), Some(2));
    assert_eq!(component.name(), "Component");
    component.set_name("Renamed".to_string());
    assert_eq!(component.name(), "Renamed");
    assert_eq!(component.ranking(), vec![0, 1, 2]);
    component.set_variable("c", 1).unwrap();
    assert_eq!(component.ranking(), vec![2, 0, 1]);
}

#[test]
fn constraint_system_par_update_skips_unmodified_components() {
    let mut cs = ConstraintSystem::new();
    cs.add_component(sum());
    cs.update().unwrap();
    assert!(!cs.get_component("Component").is_modified());
    let before = cs.get_component("Component").clone();
    cs.par_update().unwrap();
    assert_eq!(cs.get_component("Component"), &before);
    cs.set_variable("Component", "a", 2);
    cs.set_variable("Component", "b", 3);
    assert!(cs.get_component("Component").is_modified());
    cs.par_update().unwrap();
    assert!(!cs.get_component("Component").is_modified());
    assert_eq!(cs.get_variable("Component", "c"), Some(5));
}
