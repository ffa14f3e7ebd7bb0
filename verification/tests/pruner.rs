use hotdrink_rs::component::Component;
use hotdrink_rs::method::{Identity, MethodFunction};
use hotdrink_rs::pruner::{create_var_to_constraint, prune};
use hotdrink_rs::raw::{RawComponent, RawConstraint, RawMethod};

fn m(name: &str, inputs: &[&str], outputs: &[&str]) -> RawMethod<()> {
    let f: MethodFunction<()> = &Identity;
    RawMethod::new(name, inputs.to_vec(), outputs.to_vec(), f)
}

fn dummy_component(variables: &[&str], constraints: Vec<RawConstraint<()>>) -> Component<()> {
    RawComponent::new("DummyComponent", variables.to_vec(), vec![(); variables.len()], constraints).into_component()
}

fn run_prune(component: &mut Component<()>) -> Vec<bool> {
    let mut can_stay = vec![true; component.n_variables()];
    prune(&mut create_var_to_constraint(component), 0, &mut can_stay, component);
    can_stay
}

#[test]
fn prune_one_way_chain_should_do_nothing() {
    let vars = ["a", "b", "c", "d"];
    let mut component = dummy_component(
        &vars,
        vec![
            RawConstraint::new("StayA", vec![m("id", &["a"], &["a"])]),
            RawConstraint::new("A", vec![m("a1", &["a"], &["b"])]),
            RawConstraint::new("B", vec![m("b1", &["b"], &["c"])]),
            RawConstraint::new("C", vec![m("c1", &["c"], &["d"])]),
        ],
    );
    let can_stay = run_prune(&mut component);
    let expected = dummy_component(
        &vars,
        vec![
            RawConstraint::new("StayA", vec![m("id", &["a"], &["a"])]),
            RawConstraint::new("A", vec![m("a1", &["a"], &["b"])]),
            RawConstraint::new("B", vec![m("b1", &["b"], &["c"])]),
            RawConstraint::new("C", vec![m("c1", &["c"], &["d"])]),
        ],
    );
    assert_eq!(component, expected);
    assert_eq!(can_stay, vec![false, false, false, false]);
}

#[test]
fn prune_two_way_chain() {
    let vars = ["a", "b", "c", "d"];
    let mut component = dummy_component(
        &vars,
        vec![
            RawConstraint::new("StayA", vec![m("id", &["a"], &["a"])]),
            RawConstraint::new("A", vec![m("a1", &["a"], &["b"]), m("a2", &["b"], &["a"])]),
            RawConstraint::new("B", vec![m("b1", &["b"], &["c"]), m("b2", &["c"], &["b"])]),
            RawConstraint::new("C", vec![m("c1", &["c"], &["d"]), m("c2", &["d"], &["c"])]),
        ],
    );
    let can_stay = run_prune(&mut component);
    let expected = dummy_component(
        &vars,
        vec![
            RawConstraint::new("StayA", vec![m("id", &["a"], &["a"])]),
            RawConstraint::new("A", vec![m("a1", &["a"], &["b"])]),
            RawConstraint::new("B", vec![m("b1", &["b"], &["c"])]),
            RawConstraint::new("C", vec![m("c1", &["c"], &["d"])]),
        ],
    );
    assert_eq!(component, expected);
    assert_eq!(can_stay, vec![false, false, false, false]);
}

#[test]
fn prune_one_way_multi_output() {
    let vars = ["a", "b", "c"];
    let mut component = dummy_component(
        &vars,
        vec![
            RawConstraint::new("StayA", vec![m("id", &["a"], &["a"])]),
            RawConstraint::new("A", vec![m("a_to_bc", &["a"], &["b", "c"])]),
        ],
    );
    let can_stay = run_prune(&mut component);
    let expected = dummy_component(
        &vars,
        vec![
            RawConstraint::new("StayA", vec![m("id", &["a"], &["a"])]),
            RawConstraint::new("A", vec![m("a_to_bc", &["a"], &["b", "c"])]),
        ],
    );
    assert_eq!(component, expected);
    assert_eq!(can_stay, vec![false, false, false]);
}

#[test]
fn prune_two_way_multi_output() {
    let vars = ["a", "b", "c"];
    let mut component = dummy_component(
        &vars,
        vec![
            RawConstraint::new("StayA", vec![m("id", &["a"], &["a"])]),
            RawConstraint::new("A", vec![m("a_to_bc", &["a"], &["b", "c"]), m("b_to_ac", &["b"], &["a", "c"])]),
        ],
    );
    let can_stay = run_prune(&mut component);
    let expected = dummy_component(
        &vars,
        vec![
            RawConstraint::new("StayA", vec![m("id", &["a"], &["a"])]),
            RawConstraint::new("A", vec![m("a_to_bc", &["a"], &["b", "c"])]),
        ],
    );
    assert_eq!(component, expected);
    assert_eq!(can_stay, vec![false, false, false]);
}

#[test]
fn prune_three_way_multi_output() {
    let vars = ["a", "b", "c"];
    let mut component = dummy_component(
        &vars,
        vec![
            RawConstraint::new("StayA", vec![m("id", &["a"], &["a"])]),
            RawConstraint::new(
                "A",
                vec![m("a_to_bc", &["a"], &["b", "c"]), m("b_to_ac", &["b"], &["a", "c"]), m("c_to_ab", &["c"], &["a", "b"])],
            ),
        ],
    );
    let can_stay = run_prune(&mut component);
    let expected = dummy_component(
        &vars,
        vec![
            RawConstraint::new("StayA", vec![m("id", &["a"], &["a"])]),
            RawConstraint::new("A", vec![m("a_to_bc", &["a"], &["b", "c"])]),
        ],
    );
    assert_eq!(component, expected);
    assert_eq!(can_stay, vec![false, false, false]);
}

#[test]
fn prune_removes_writes_before_selecting() {
    let vars = ["a", "b", "c"];
    let mut component = dummy_component(
        &vars,
        vec![
            RawConstraint::new("StayA", vec![m("id", &["a"], &["a"])]),
            RawConstraint::new(
                "A",
                vec![m("a_to_bc", &["a"], &["b", "c"]), m("ab_to_ac", &["a", "b"], &["a", "c"]), m("ac_to_ab", &["a", "c"], &["a", "b"])],
            ),
        ],
    );
    let can_stay = run_prune(&mut component);
    let expected = dummy_component(
        &vars,
        vec![
            RawConstraint::new("StayA", vec![m("id", &["a"], &["a"])]),
            RawConstraint::new("A", vec![m("a_to_bc", &["a"], &["b", "c"])]),
        ],
    );
    assert_eq!(component, expected);
    assert_eq!(can_stay, vec![false, false, false]);
}

#[test]
fn prune_keeps_ambiguous() {
    let vars = ["a", "b", "c"];
    let mut component = dummy_component(
        &vars,
        vec![
            RawConstraint::new("StayA", vec![m("id", &["a"], &["a"])]),
            RawConstraint::new(
                "A",
                vec![m("ab_to_c", &["a", "b"], &["c"]), m("ac_to_b", &["a", "c"], &["b"]), m("bc_to_a", &["b", "c"], &["a"])],
            ),
        ],
    );
    let can_stay = run_prune(&mut component);
    let expected = dummy_component(
        &vars,
        vec![
            RawConstraint::new("StayA", vec![m("id", &["a"], &["a"])]),
            RawConstraint::new("A", vec![m("ab_to_c", &["a", "b"], &["c"]), m("ac_to_b", &["a", "c"], &["b"])]),
        ],
    );
    assert_eq!(component, expected);
    assert_eq!(can_stay, vec![false, true, true]);
}

#[test]
fn prune_dense() {
    let vars = ["a", "b", "c", "d", "e", "f", "g"];
    let mut component = dummy_component(
        &vars,
        vec![
            RawConstraint::new("StayA", vec![m("id", &["a"], &["a"])]),
            RawConstraint::new("Ab", vec![m("ab1", &["a"], &["b"]), m("ab2", &["b"], &["a"])]),
            RawConstraint::new("Ac", vec![m("ac1", &["a"], &["c"]), m("ac2", &["c"], &["a"])]),
            RawConstraint::new("Ad", vec![m("ad1", &["a"], &["d"]), m("ad2", &["d"], &["a"])]),
            RawConstraint::new("De", vec![m("de1", &["d"], &["e"]), m("de2", &["e"], &["d"])]),
            RawConstraint::new("Df", vec![m("df1", &["d"], &["f"]), m("df2", &["f"], &["d"])]),
            RawConstraint::new("Dg", vec![m("dg1", &["d"], &["g"]), m("dg2", &["g"], &["d"])]),
        ],
    );
    let can_stay = run_prune(&mut component);
    let expected = dummy_component(
        &vars,
        vec![
            RawConstraint::new("StayA", vec![m("id", &["a"], &["a"])]),
            RawConstraint::new("Ab", vec![m("ab1", &["a"], &["b"])]),
            RawConstraint::new("Ac", vec![m("ac1", &["a"], &["c"])]),
            RawConstraint::new("Ad", vec![m("ad1", &["a"], &["d"])]),
            RawConstraint::new("De", vec![m("de1", &["d"], &["e"])]),
            RawConstraint::new("Df", vec![m("df1", &["d"], &["f"])]),
            RawConstraint::new("Dg", vec![m("dg1", &["d"], &["g"])]),
        ],
    );
    assert_eq!(component, expected);
    assert_eq!(can_stay, vec![false; expected.n_variables()]);
}

#[test]
fn var_to_constraint_lists_referencing_constraints() {
    let component = dummy_component(
        &["a", "b", "c"],
        vec![
            RawConstraint::new("A", vec![m("ab", &["a"], &["b"])]),
            RawConstraint::new("B", vec![m("bc", &["b"], &["c"])]),
        ],
    );
    assert_eq!(create_var_to_constraint(&component), vec![vec![0], vec![0, 1], vec![1]]);
}
